//! Which files of a disc dump get a `.patch` sidecar, and the sidecars
//! themselves: `main.dol` by name, every event script by its extension.

use vstd::prelude::*;
use std::collections::HashMap;
use crate::dump::{DumpError, dump_main_dol, dump_view, dol_outcome};
use crate::spt_dump::{dump_spt, spt_outcome};
use crate::ppc::Relocatable;

verus! {

/// Which dumper a file goes to.
#[derive(Clone, Copy, Debug, PartialEq, Eq, Structural)]
pub enum SidecarKind {
    /// the executable
    MainDol,
    /// an event script
    Script,
}

/// `c` as `to_ascii_lowercase` leaves it, as a code point.
pub open spec fn ascii_lower(c: char) -> u32 {
    if 'A' <= c && c <= 'Z' {
        (c as u32 + 32) as u32
    } else {
        c as u32
    }
}

/// `eq_ignore_ascii_case`.
pub open spec fn same_ignoring_case(a: Seq<char>, b: Seq<char>) -> bool {
    a.len() == b.len() && forall|i: int| 0 <= i < a.len() ==> ascii_lower(#[trigger] a[i]) == ascii_lower(b[i])
}

/// The position of the last dot of `name`, if it has one.
pub open spec fn last_dot(name: Seq<char>) -> Option<int> {
    if exists|i: int| 0 <= i < name.len() && name[i] == '.' {
        Some(choose|i: int| 0 <= i < name.len() && name[i] == '.' && forall|j: int| i < j < name.len() ==> name[j] != '.')
    } else {
        None
    }
}

/// A file name's extension, as `Path::extension` reads it: what follows the
/// last dot, unless that dot begins the name.
pub open spec fn extension(name: Seq<char>) -> Option<Seq<char>> {
    match last_dot(name) {
        Some(i) if i > 0 => Some(name.skip(i + 1)),
        _ => None,
    }
}

/// Which dumper the file `name` goes to, if any.
pub open spec fn spec_sidecar_kind(name: Seq<char>) -> Option<SidecarKind> {
    if same_ignoring_case(name, "MAIN.DOL"@) {
        Some(SidecarKind::MainDol)
    } else if extension(name) matches Some(e) && same_ignoring_case(e, "SPT"@) {
        Some(SidecarKind::Script)
    } else {
        None
    }
}

fn lower(c: char) -> (r: u32)
    ensures
        r == ascii_lower(c),
{
    if 'A' <= c && c <= 'Z' {
        c as u32 + 32
    } else {
        c as u32
    }
}

fn same_ignoring_case_exec(a: &[char], b: &[char]) -> (r: bool)
    ensures
        r == same_ignoring_case(a@, b@),
{
    if a.len() != b.len() {
        return false;
    }
    let mut i: usize = 0;
    while i < a.len()
        invariant
            a@.len() == b@.len(),
            i <= a@.len(),
            forall|j: int| 0 <= j < i ==> ascii_lower(#[trigger] a@[j]) == ascii_lower(b@[j]),
        decreases a@.len() - i,
    {
        if lower(a[i]) != lower(b[i]) {
            return false;
        }
        i = i + 1;
    }
    true
}

fn tail(cs: &[char], start: usize) -> (out: Vec<char>)
    requires
        start <= cs@.len(),
    ensures
        out@ == cs@.skip(start as int),
{
    let mut out: Vec<char> = Vec::new();
    let mut i: usize = start;
    while i < cs.len()
        invariant
            start <= i <= cs@.len(),
            out@ == cs@.subrange(start as int, i as int),
        decreases cs@.len() - i,
    {
        out.push(cs[i]);
        proof {
            assert(out@ =~= cs@.subrange(start as int, i + 1));
        }
        i = i + 1;
    }
    proof {
        assert(cs@.subrange(start as int, cs@.len() as int) =~= cs@.skip(start as int));
    }
    out
}

/// Which dumper the file `name` goes to: `main.dol` in any case, or any file
/// whose extension is `spt` in any case; `None` for every other file.
pub fn sidecar_kind(name: &str) -> (r: Option<SidecarKind>)
    ensures
        r == spec_sidecar_kind(name@),
{
    let cs = crate::text::chars_of(name);
    let dol = crate::text::chars_of("MAIN.DOL");
    let spt = crate::text::chars_of("SPT");
    if same_ignoring_case_exec(cs.as_slice(), dol.as_slice()) {
        return Some(SidecarKind::MainDol);
    }
    let mut found: Option<usize> = None;
    let mut i: usize = 0;
    while i < cs.len()
        invariant
            i <= cs@.len(),
            match found {
                Some(d) => d < i && cs@[d as int] == '.' && forall|j: int| d < j < i ==> cs@[j] != '.',
                None => forall|j: int| 0 <= j < i ==> cs@[j] != '.',
            },
        decreases cs@.len() - i,
    {
        if cs[i] == '.' {
            found = Some(i);
        }
        i = i + 1;
    }
    proof {
        match found {
            Some(d) => {
                assert(exists|i: int| 0 <= i < cs@.len() && cs@[i] == '.');
                let c = choose|i: int| 0 <= i < cs@.len() && cs@[i] == '.' && forall|j: int| i < j < cs@.len() ==> cs@[j] != '.';
                assert(0 <= c < cs@.len() && cs@[c] == '.' && forall|j: int| c < j < cs@.len() ==> cs@[j] != '.') by {
                    assert(cs@[d as int] == '.' && forall|j: int| d < j < cs@.len() ==> cs@[j] != '.');
                }
                if c < d {
                    assert(cs@[d as int] != '.');
                }
                if d < c {
                    assert(cs@[c] != '.');
                }
                assert(last_dot(cs@) == Some(d as int));
            },
            None => {
                assert(last_dot(cs@) == None::<int>);
            },
        }
    }
    match found {
        Some(d) if d > 0 => {
            let ext = tail(cs.as_slice(), d + 1);
            if same_ignoring_case_exec(ext.as_slice(), spt.as_slice()) {
                proof {
                    assert(ext@ =~= cs@.skip(d + 1));
                }
                Some(SidecarKind::Script)
            } else {
                proof {
                    assert(ext@ =~= cs@.skip(d + 1));
                }
                None
            }
        },
        _ => None,
    }
}

/// A sidecar: which of the files it belongs to, its text, and the notes
/// for the console.
pub struct Sidecar {
    pub file: usize,
    pub text: String,
    pub notes: Vec<String>,
}

pub open spec fn sidecar_view(s: Sidecar) -> (int, Seq<char>, Seq<Seq<char>>) {
    (s.file as int, s.text@, s.notes@.map_values(|n: String| n@))
}

/// What dumping the file named `name` with contents `bytes` may give.
pub open spec fn dumped_as(name: Seq<char>, bytes: Seq<u8>, glyphs: Map<u16, String>, verdicts: Relocatable, v: Result<(Seq<char>, Seq<Seq<char>>), DumpError>) -> bool {
    match spec_sidecar_kind(name) {
        Some(SidecarKind::MainDol) => dol_outcome(bytes, glyphs, verdicts, v),
        Some(SidecarKind::Script) => v is Ok && v->Ok_0.1 == Seq::<Seq<char>>::empty() && spt_outcome(bytes, name, glyphs, v->Ok_0.0),
        None => false,
    }
}

/// The file dumps without an error.
pub open spec fn dumps_cleanly(name: Seq<char>, bytes: Seq<u8>, glyphs: Map<u16, String>, verdicts: Relocatable) -> bool {
    exists|v: (Seq<char>, Seq<Seq<char>>)| #[trigger] dumped_as(name, bytes, glyphs, verdicts, Ok(v))
}

/// The positions among the first `n` files of those that get a sidecar.
pub open spec fn dumpable(files: Seq<(String, Vec<u8>)>, n: int) -> Seq<int>
    decreases n,
{
    if n <= 0 {
        Seq::empty()
    } else if spec_sidecar_kind(files[n - 1].0@) is Some {
        dumpable(files, n - 1).push(n - 1)
    } else {
        dumpable(files, n - 1)
    }
}

/// Write a sidecar for every file that gets one, in order: `main.dol`'s and
/// each event script's; every other file is passed over. The first dump
/// that fails ends the run with that file's position and its error.
pub fn dump_all(files: &[(String, Vec<u8>)], glyphs: &HashMap<u16, String>, verdicts: &Relocatable) -> (r: Result<Vec<Sidecar>, (usize, DumpError)>)
    requires
        forall|i: int| 0 <= i < files@.len() && spec_sidecar_kind((#[trigger] files@[i]).0@) == Some(SidecarKind::MainDol)
            ==> files@[i].1@.len() <= u32::MAX,
    ensures
        match r {
            Ok(outs) => outs@.len() == dumpable(files@, files@.len() as int).len() && forall|j: int| 0 <= j < outs@.len() ==> {
                let s = sidecar_view(#[trigger] outs@[j]);
                &&& s.0 == dumpable(files@, files@.len() as int)[j]
                &&& dumped_as(files@[s.0].0@, files@[s.0].1@, glyphs@, *verdicts, Ok((s.1, s.2)))
            },
            Err((i, e)) => {
                &&& 0 <= i < files@.len()
                &&& dumped_as(files@[i as int].0@, files@[i as int].1@, glyphs@, *verdicts, Err(e))
                &&& forall|k: int| 0 <= k < dumpable(files@, i as int).len() ==> dumps_cleanly(files@[#[trigger] dumpable(files@, i as int)[k]].0@,
                    files@[dumpable(files@, i as int)[k]].1@, glyphs@, *verdicts)
            },
        },
{
    let mut outs: Vec<Sidecar> = Vec::new();
    let mut i: usize = 0;
    while i < files.len()
        invariant
            i <= files@.len(),
            forall|q: int| 0 <= q < files@.len() && spec_sidecar_kind((#[trigger] files@[q]).0@) == Some(SidecarKind::MainDol)
                ==> files@[q].1@.len() <= u32::MAX,
            outs@.len() == dumpable(files@, i as int).len(),
            forall|j: int| 0 <= j < outs@.len() ==> {
                let s = sidecar_view(#[trigger] outs@[j]);
                &&& s.0 == dumpable(files@, i as int)[j]
                &&& dumped_as(files@[s.0].0@, files@[s.0].1@, glyphs@, *verdicts, Ok((s.1, s.2)))
            },
        decreases files@.len() - i,
    {
        let ghost before = dumpable(files@, i as int);
        let ghost prev = outs@;
        let name = files[i].0.as_str();
        let bytes = files[i].1.as_slice();
        let kind = sidecar_kind(name);
        let made = match kind {
            Some(SidecarKind::MainDol) => {
                match dump_main_dol(bytes, glyphs, verdicts) {
                    Ok(d) => Some(Sidecar { file: i, text: d.text, notes: d.notes }),
                    Err(e) => {
                        proof {
                            assert(dumped_as(files@[i as int].0@, files@[i as int].1@, glyphs@, *verdicts, Err(e)));
                            assert forall|k: int| 0 <= k < dumpable(files@, i as int).len() implies dumps_cleanly(files@[#[trigger] dumpable(files@, i as int)[k]].0@,
                                files@[dumpable(files@, i as int)[k]].1@, glyphs@, *verdicts) by {
                                let sv = sidecar_view(outs@[k]);
                                assert(dumped_as(files@[sv.0].0@, files@[sv.0].1@, glyphs@, *verdicts, Ok((sv.1, sv.2))));
                            }
                        }
                        return Err((i, e));
                    },
                }
            },
            Some(SidecarKind::Script) => {
                let text = dump_spt(bytes, name, glyphs);
                let notes: Vec<String> = Vec::new();
                proof {
                    assert(notes@.map_values(|n: String| n@) =~= Seq::<Seq<char>>::empty());
                }
                Some(Sidecar { file: i, text, notes })
            },
            None => None,
        };
        match made {
            Some(sc) => {
                proof {
                    assert(kind is Some);
                    assert(dumpable(files@, i + 1) == before.push(i as int));
                    assert(dumped_as(files@[i as int].0@, files@[i as int].1@, glyphs@, *verdicts, Ok((sidecar_view(sc).1, sidecar_view(sc).2))));
                }
                outs.push(sc);
                proof {
                    assert forall|j: int| 0 <= j < outs@.len() implies {
                        let s = sidecar_view(#[trigger] outs@[j]);
                        &&& s.0 == dumpable(files@, i + 1)[j]
                        &&& dumped_as(files@[s.0].0@, files@[s.0].1@, glyphs@, *verdicts, Ok((s.1, s.2)))
                    } by {
                        if j < prev.len() {
                            assert(outs@[j] == prev[j]);
                        }
                    }
                }
            },
            None => {
                proof {
                    assert(kind is None);
                    assert(dumpable(files@, i + 1) == before);
                }
            },
        }
        i = i + 1;
    }
    Ok(outs)
}

} // verus!
