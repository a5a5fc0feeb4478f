//! The lookup tables the daemon names events with: syscall numbers to
//! syscall names, and uids to package names.
use std::collections::HashMap;
use vstd::prelude::*;

use crate::catalog::{SyscallDef, SyscallDefView, defs_view};
use crate::ctl::{parse_u64, parse_u64_bytes};

verus! {

broadcast use vstd::std_specs::hash::group_hash_axioms;

/// What `u32::from_str` yields for these bytes: the `u64` reading when it
/// fits in 32 bits.
pub open spec fn parse_u32_bytes(s: Seq<u8>) -> Option<u32> {
    match parse_u64_bytes(s) {
        Some(v) => if v <= u32::MAX {
            Some(v as u32)
        } else {
            None
        },
        None => None,
    }
}

/// Parses a decimal `u32` as `str::parse::<u32>` does.
pub fn parse_u32(s: &str) -> (r: Option<u32>)
    ensures
        r == parse_u32_bytes(vstd::utf8::encode_utf8(s@)),
{
    match parse_u64(s) {
        Some(v) => if v <= 0xFFFF_FFFFu64 {
            Some(v as u32)
        } else {
            None
        },
        None => None,
    }
}

/// Index of the first `\n` of a text, or -1.
pub open spec fn nl_index(s: Seq<char>) -> int
    decreases s.len(),
{
    if s.len() == 0 {
        -1
    } else if s[0] == '\n' {
        0
    } else if nl_index(s.drop_first()) < 0 {
        -1
    } else {
        1 + nl_index(s.drop_first())
    }
}

/// A line without the `\r` that ends it before a `\n`.
pub open spec fn line_body(l: Seq<char>) -> Seq<char> {
    if l.len() > 0 && l.last() == '\r' {
        l.drop_last()
    } else {
        l
    }
}

/// The lines of a text, as std's `str::lines` documents them: split at
/// each `\n`, a `\r` just before it dropped; the last line needs no
/// `\n`, and a text ending in `\n` has no empty last line.
pub open spec fn text_lines(s: Seq<char>) -> Seq<Seq<char>>
    decreases s.len(),
{
    if s.len() == 0 {
        seq![]
    } else if 0 <= nl_index(s) < s.len() {
        seq![line_body(s.take(nl_index(s)))] + text_lines(s.skip(nl_index(s) + 1))
    } else {
        seq![s]
    }
}

/// The white-space separated words of a text (std's
/// `str::split_whitespace`).
pub uninterp spec fn text_words(s: Seq<char>) -> Seq<Seq<char>>;

/// Splits a text into lines with `str::lines`.
#[verifier::external_body]
fn lines_of(s: &str) -> (r: Vec<&str>)
    ensures
        r@.map_values(|l: &str| l@) == text_lines(s@),
{
    s.lines().collect()
}

/// Splits a line into words with `str::split_whitespace`; the words
/// depend on the line alone.
#[verifier::external_body]
fn words_of(s: &str) -> (r: Vec<&str>)
    ensures
        r@.map_values(|w: &str| w@) == text_words(s@),
{
    s.split_whitespace().collect()
}

/// Package names by uid from the lines of `packages.list`: a line whose
/// first word is a package and whose second parses as a uid maps that
/// uid to the package; a later line wins.
pub open spec fn uid_entries(lines: Seq<Seq<char>>) -> Map<u32, Seq<char>>
    decreases lines.len(),
{
    if lines.len() == 0 {
        Map::empty()
    } else {
        let m = uid_entries(lines.drop_last());
        let w = text_words(lines.last());
        if w.len() >= 2 && parse_u32_bytes(vstd::utf8::encode_utf8(w[1])) is Some {
            m.insert(parse_u32_bytes(vstd::utf8::encode_utf8(w[1]))->0, w[0])
        } else {
            m
        }
    }
}

/// The map's names as character sequences.
pub open spec fn names_view(m: Map<u32, String>) -> Map<u32, Seq<char>> {
    m.map_values(|s: String| s@)
}

/// Reads the package list (`/data/system/packages.list` format) into
/// package names by uid.
pub fn uid_names_from(content: &str) -> (r: HashMap<u32, String>)
    ensures
        names_view(r@) == uid_entries(text_lines(content@)),
{
    let lines = lines_of(content);
    let ghost ls = lines@.map_values(|l: &str| l@);
    let mut map: HashMap<u32, String> = HashMap::new();
    let mut i: usize = 0;
    while i < lines.len()
        invariant
            i <= lines@.len(),
            ls == lines@.map_values(|l: &str| l@),
            ls == text_lines(content@),
            names_view(map@) == uid_entries(ls.take(i as int)),
        decreases lines@.len() - i,
    {
        proof {
            assert(ls.take(i + 1).drop_last() =~= ls.take(i as int));
            assert(ls.take(i + 1).last() == lines@[i as int]@);
        }
        let words = words_of(lines[i]);
        let ghost ws = words@.map_values(|w: &str| w@);
        if words.len() >= 2 {
            match parse_u32(words[1]) {
                Some(uid) => {
                    let ghost before = map@;
                    map.insert(uid, words[0].to_owned());
                    proof {
                        assert(ws[0] == words@[0]@);
                        assert(names_view(map@) =~= names_view(before).insert(uid, ws[0]));
                    }
                },
                None => {},
            }
        }
        i += 1;
    }
    proof {
        assert(ls.take(i as int) =~= ls);
    }
    map
}

/// Syscall names by number from a syscall table: both the arm64 and the
/// arm32 number of each syscall name it, a later entry winning.
pub open spec fn nr_entries(defs: Seq<SyscallDefView>) -> Map<u32, Seq<char>>
    decreases defs.len(),
{
    if defs.len() == 0 {
        Map::empty()
    } else {
        let m = nr_entries(defs.drop_last());
        let d = defs.last();
        let m1 = match d.nr.arm64 {
            Some(n) => m.insert(n, d.name),
            None => m,
        };
        match d.nr.arm32 {
            Some(n) => m1.insert(n, d.name),
            None => m1,
        }
    }
}

/// Builds the syscall-number-to-name table the daemon names events with.
pub fn syscall_names(defs: &Vec<SyscallDef>) -> (r: HashMap<u32, String>)
    ensures
        names_view(r@) == nr_entries(defs_view(defs@)),
{
    let ghost dv = defs_view(defs@);
    let mut map: HashMap<u32, String> = HashMap::new();
    let mut i: usize = 0;
    while i < defs.len()
        invariant
            i <= defs@.len(),
            dv == defs_view(defs@),
            names_view(map@) == nr_entries(dv.take(i as int)),
        decreases defs@.len() - i,
    {
        proof {
            assert(dv.take(i + 1).drop_last() =~= dv.take(i as int));
            assert(dv.take(i + 1).last() == defs@[i as int]@);
        }
        let d = &defs[i];
        let ghost m0 = map@;
        if let Some(n) = d.nr.arm64 {
            map.insert(n, d.name.clone());
        }
        let ghost m1 = map@;
        if let Some(n) = d.nr.arm32 {
            map.insert(n, d.name.clone());
        }
        proof {
            let mv0 = names_view(m0);
            let mv1 = match d.nr.arm64 {
                Some(n) => mv0.insert(n, d.name@),
                None => mv0,
            };
            assert(names_view(m1) =~= mv1);
            let mv2 = match d.nr.arm32 {
                Some(n) => mv1.insert(n, d.name@),
                None => mv1,
            };
            assert(names_view(map@) =~= mv2);
        }
        i += 1;
    }
    proof {
        assert(dv.take(i as int) =~= dv);
    }
    map
}

} // verus!
