//! Turning a kernel event into a stored event: names for the operation
//! and the package, the file identity, and what is logged.
use std::collections::HashMap;
use vstd::prelude::*;

use crate::abi::{file_op_of, FileEvent, FileOp};
use crate::elf::{lossy_string, utf8_lossy};
use crate::events::Ev;
use crate::text::{push_str, trim_text, trim_ws};
use vstd::string::StrSliceExecFns;

verus! {

broadcast use vstd::std_specs::hash::group_hash_axioms;

/// Length of the NUL-terminated prefix of `b` (all of it without a NUL).
pub open spec fn c_len(b: Seq<u8>) -> nat
    decreases b.len(),
{
    if b.len() == 0 {
        0
    } else if c_len(b.drop_last()) < b.len() - 1 {
        c_len(b.drop_last())
    } else if b.last() == 0u8 {
        (b.len() - 1) as nat
    } else {
        b.len()
    }
}

/// Text of a NUL-terminated byte buffer, when it is valid UTF-8.
pub open spec fn c_text(b: Seq<u8>) -> Option<Seq<char>> {
    let p = b.take(c_len(b) as int);
    if vstd::utf8::valid_utf8(p) {
        Some(vstd::utf8::decode_utf8(p))
    } else {
        None
    }
}

/// Decodes UTF-8 (std's `str::from_utf8`): fails exactly on invalid
/// UTF-8, else gives the decoded characters.
#[verifier::external_body]
pub(crate) fn utf8_str(b: &[u8]) -> (r: Option<&str>)
    ensures
        r is Some <==> vstd::utf8::valid_utf8(b@),
        r matches Some(s) ==> s@ == vstd::utf8::decode_utf8(b@),
{
    std::str::from_utf8(b).ok()
}

/// The text before the first NUL of `buf`, or `<invalid>` when that is
/// not valid UTF-8.
pub fn cstr(buf: &[u8]) -> (r: &str)
    ensures
        r@ == match c_text(buf@) {
            Some(t) => t,
            None => "<invalid>"@,
        },
{
    let ghost b = buf@;
    let mut len: usize = 0;
    let mut found = false;
    while len < buf.len() && !found
        invariant
            b == buf@,
            len <= b.len(),
            found ==> c_len(b) == len,
            !found ==> c_len(b.take(len as int)) == len,
            !found ==> forall|j: int| 0 <= j < len ==> b[j] != 0u8,
        decreases b.len() - len + if found { 0int } else { 1int },
    {
        proof {
            assert(b.take(len + 1).drop_last() =~= b.take(len as int));
        }
        if buf[len] == 0 {
            proof {
                lemma_c_len_first_nul(b, len as int);
            }
            found = true;
        } else {
            len += 1;
        }
    }
    proof {
        if !found {
            assert(b.take(len as int) =~= b);
        }
    }
    match utf8_str(&buf[0..len]) {
        Some(s) => s,
        None => "<invalid>",
    }
}

/// The first NUL decides the terminated length.
pub proof fn lemma_c_len_first_nul(b: Seq<u8>, k: int)
    requires
        0 <= k < b.len(),
        b[k] == 0u8,
        forall|j: int| 0 <= j < k ==> b[j] != 0u8,
    ensures
        c_len(b) == k,
    decreases b.len(),
{
    if k < b.len() - 1 {
        lemma_c_len_first_nul(b.drop_last(), k);
    } else {
        lemma_c_len_no_nul(b.drop_last());
    }
}

/// Without a NUL, the whole buffer is the text.
proof fn lemma_c_len_no_nul(b: Seq<u8>)
    requires
        forall|j: int| 0 <= j < b.len() ==> b[j] != 0u8,
    ensures
        c_len(b) == b.len(),
    decreases b.len(),
{
    if b.len() > 0 {
        lemma_c_len_no_nul(b.drop_last());
    }
}

/// The name a map gives `k`, or `default`.
pub open spec fn name_or(m: Map<u32, String>, k: u32, default: Seq<char>) -> Seq<char> {
    if m.contains_key(k) {
        m[k]@
    } else {
        default
    }
}

/// Looks up `k`, falling back to `default`.
pub fn lookup_name(m: &HashMap<u32, String>, k: u32, default: &str) -> (r: String)
    ensures
        r@ == name_or(m@, k, default@),
{
    match m.get(&k) {
        Some(v) => v.clone(),
        None => default.to_owned(),
    }
}

/// Name of the operation an event reports: the file operation, else the
/// syscall's name, else `?`.
pub open spec fn op_label(code: u32, nr_names: Map<u32, String>) -> Seq<char> {
    match file_op_of(code) {
        FileOp::Create => "create"@,
        FileOp::Mkdir => "mkdir"@,
        FileOp::Rename => "rename"@,
        FileOp::Unlink => "unlink"@,
        FileOp::Unknown => name_or(nr_names, code, "?"@),
    }
}

/// Name of the operation an event reports.
pub fn op_name(e: &FileEvent, nr_names: &HashMap<u32, String>) -> (r: String)
    ensures
        r@ == op_label(e.syscall_nr, nr_names@),
{
    match e.op() {
        FileOp::Create => "create".to_owned(),
        FileOp::Mkdir => "mkdir".to_owned(),
        FileOp::Rename => "rename".to_owned(),
        FileOp::Unlink => "unlink".to_owned(),
        FileOp::Unknown => lookup_name(nr_names, e.syscall_nr, "?"),
    }
}

/// File identity from device and inode; 0 when the inode is unknown.
pub open spec fn inode_file_id(dev: u64, ino: u64) -> u64 {
    if ino != 0 {
        (dev << 32u64) ^ ino
    } else {
        0
    }
}

/// The stored event for a kernel event, given what the daemon looked up
/// around it: the time, the process command line and the file's device
/// and inode.
pub fn build_ev(
    e: &FileEvent,
    nr_names: &HashMap<u32, String>,
    uid_names: &HashMap<u32, String>,
    ts: String,
    epoch_ms: i64,
    cmd: String,
    dev: u64,
    ino: u64,
) -> (r: Ev)
    ensures
        r.seq == 0,
        r.ts == ts,
        r.epoch_ms == epoch_ms,
        r.pid == e.pid && r.tid == e.tid && r.uid == e.uid,
        r.comm@ == match c_text(e.comm@) {
            Some(t) => t,
            None => "<invalid>"@,
        },
        r.pkg@ == name_or(uid_names@, e.uid, "-"@),
        r.op@ == op_label(e.syscall_nr, nr_names@),
        r.ret == e.ret,
        r.flags == e.sflags,
        r.file@ == match c_text(e.fname@) {
            Some(t) => t,
            None => "<invalid>"@,
        },
        r.cmd == cmd,
        r.old_file@ == match c_text(e.old_fname@) {
            Some(t) => t,
            None => "<invalid>"@,
        },
        r.dev == dev && r.ino == ino,
        r.file_id == inode_file_id(dev, ino),
        r.prev_hash@.len() == 0 && r.hash@.len() == 0,
{
    Ev {
        seq: 0,
        ts,
        epoch_ms,
        pid: e.pid,
        tid: e.tid,
        uid: e.uid,
        comm: cstr(e.comm.as_slice()).to_owned(),
        pkg: lookup_name(uid_names, e.uid, "-"),
        op: op_name(e, nr_names),
        ret: e.ret,
        flags: e.sflags,
        file: cstr(e.fname.as_slice()).to_owned(),
        cmd,
        old_file: cstr(e.old_fname.as_slice()).to_owned(),
        dev,
        ino,
        file_id: if ino != 0 {
            (dev << 32u64) ^ ino
        } else {
            0
        },
        prev_hash: String::new(),
        hash: String::new(),
    }
}

/// How an event is logged.
#[derive(Clone, Copy, Debug, PartialEq, Eq, Structural)]
pub enum LogLine {
    /// A watched basename was hit.
    Watch,
    /// A printed syscall, shown at verbose level.
    Print,
    /// Not logged.
    Silent,
}

/// Watched events are always logged; others only at verbosity 2 and up.
pub fn log_line(watched: u8, verbosity: u8) -> (r: LogLine)
    ensures
        r == if watched != 0 {
            LogLine::Watch
        } else if verbosity >= 2 {
            LogLine::Print
        } else {
            LogLine::Silent
        },
{
    if watched != 0 {
        LogLine::Watch
    } else if verbosity >= 2 {
        LogLine::Print
    } else {
        LogLine::Silent
    }
}

/// The NUL-separated fields of a prefix: those already closed by a NUL
/// (empty ones left out) and the field still open.
pub open spec fn fields_acc(b: Seq<u8>) -> (Seq<Seq<u8>>, Seq<u8>)
    decreases b.len(),
{
    if b.len() == 0 {
        (seq![], seq![])
    } else {
        let (d, c) = fields_acc(b.drop_last());
        if b.last() == 0u8 {
            (if c.len() > 0 { d.push(c) } else { d }, seq![])
        } else {
            (d, c.push(b.last()))
        }
    }
}

/// The non-empty NUL-separated fields of `b`.
pub open spec fn nul_fields(b: Seq<u8>) -> Seq<Seq<u8>> {
    let (d, c) = fields_acc(b);
    if c.len() > 0 {
        d.push(c)
    } else {
        d
    }
}

/// `parts` joined with single spaces.
pub open spec fn join_spaced(parts: Seq<Seq<char>>) -> Seq<char>
    decreases parts.len(),
{
    if parts.len() == 0 {
        seq![]
    } else if parts.len() == 1 {
        parts[0]
    } else {
        join_spaced(parts.drop_last()) + seq![' '] + parts.last()
    }
}

/// Longest command line kept, in characters.
pub const CMDLINE_MAX: usize = 200;

/// A process's command line as recorded: its NUL-separated arguments
/// decoded (invalid UTF-8 replaced) and joined with spaces, trimmed, and
/// cut to 200 characters followed by `…` when longer.
pub open spec fn cmdline_of(b: Seq<u8>) -> Seq<char> {
    let t = trim_ws(join_spaced(nul_fields(b).map_values(|f: Seq<u8>| utf8_lossy(f))));
    if t.len() > CMDLINE_MAX {
        t.take(CMDLINE_MAX as int) + "…"@
    } else {
        t
    }
}

/// Formats the raw contents of `/proc/<pid>/cmdline`.
pub fn cmdline_text(bytes: &[u8]) -> (r: String)
    ensures
        r@ == cmdline_of(bytes@),
{
    let ghost b = bytes@;
    let mut out = String::new();
    let mut count: usize = 0;
    let mut start: usize = 0;
    let mut k: usize = 0;
    while k < bytes.len()
        invariant
            b == bytes@,
            start <= k <= b.len(),
            count <= k,
            fields_acc(b.take(k as int)).1 == b.subrange(start as int, k as int),
            count == fields_acc(b.take(k as int)).0.len(),
            out@ == join_spaced(
                fields_acc(b.take(k as int)).0.map_values(|f: Seq<u8>| utf8_lossy(f)),
            ),
        decreases b.len() - k,
    {
        proof {
            assert(b.take(k + 1).drop_last() =~= b.take(k as int));
            assert(b.take(k + 1).last() == b[k as int]);
        }
        if bytes[k] == 0 {
            if k > start {
                let ghost d = fields_acc(b.take(k as int)).0;
                let piece = lossy_string(&bytes[start..k]);
                if count > 0 {
                    push_str(&mut out, " ");
                }
                push_str(&mut out, piece.as_str());
                proof {
                    let c = b.subrange(start as int, k as int);
                    assert(bytes@.subrange(start as int, k as int) == c);
                    let dm = d.map_values(|f: Seq<u8>| utf8_lossy(f));
                    assert(d.push(c).map_values(|f: Seq<u8>| utf8_lossy(f)) =~= dm.push(
                        utf8_lossy(c),
                    ));
                    assert(dm.push(utf8_lossy(c)).drop_last() =~= dm);
                    if count == 0 {
                        assert(dm.len() == 0);
                        assert(out@ =~= join_spaced(dm.push(utf8_lossy(c))));
                    } else {
                        reveal_strlit(" ");
                        assert(out@ =~= join_spaced(dm.push(utf8_lossy(c))));
                    }
                }
                count += 1;
            }
            start = k + 1;
        } else {
            proof {
                assert(b.subrange(start as int, k + 1) =~= b.subrange(start as int, k as int).push(
                    b[k as int],
                ));
            }
        }
        k += 1;
        proof {
            assert(b.subrange(k as int, k as int) =~= Seq::<u8>::empty());
        }
    }
    proof {
        assert(b.take(k as int) =~= b);
    }
    if k > start {
        let ghost d = fields_acc(b).0;
        let piece = lossy_string(&bytes[start..k]);
        if count > 0 {
            push_str(&mut out, " ");
        }
        push_str(&mut out, piece.as_str());
        proof {
            let c = b.subrange(start as int, k as int);
            assert(bytes@.subrange(start as int, k as int) == c);
            let dm = d.map_values(|f: Seq<u8>| utf8_lossy(f));
            assert(d.push(c).map_values(|f: Seq<u8>| utf8_lossy(f)) =~= dm.push(utf8_lossy(c)));
            assert(dm.push(utf8_lossy(c)).drop_last() =~= dm);
            if count == 0 {
                assert(dm.len() == 0);
                assert(out@ =~= join_spaced(dm.push(utf8_lossy(c))));
            } else {
                reveal_strlit(" ");
                assert(out@ =~= join_spaced(dm.push(utf8_lossy(c))));
            }
        }
    }
    let t = trim_text(out.as_str());
    let n = t.unicode_len();
    if n > CMDLINE_MAX {
        let head = t.substring_char(0, CMDLINE_MAX);
        let mut r = head.to_owned();
        push_str(&mut r, "…");
        proof {
            assert(head@ =~= t@.take(CMDLINE_MAX as int));
        }
        r
    } else {
        t.to_owned()
    }
}

} // verus!
