//! Decisions the kernel program takes for each syscall: whether a path's
//! basename is watched, and what is recorded at entry.
use vstd::prelude::*;

use crate::abi::{FileEvent, PendingPrint, SyscallArgInfo, SYSCALL_FLAG_PRINT, SYSCALL_FLAG_WATCH};

verus! {

/// Where the 32-bit-task flag lives in `task_struct`.
#[derive(Clone, Copy, Debug, PartialEq, Eq, Structural)]
pub struct KernelLayout {
    pub flags_off: u64,
    pub tif32_mask: u64,
}

impl KernelLayout {
    /// The arm64 layout: `thread_info.flags` first in `task_struct`,
    /// `TIF_32BIT` is bit 22.
    pub fn arm64_static() -> (r: KernelLayout)
        ensures
            r.flags_off == 0,
            r.tif32_mask == 0x40_0000,
    {
        assert(1u64 << 22u64 == 0x40_0000) by (bit_vector);
        KernelLayout { flags_off: 0, tif32_mask: 1u64 << 22u64 }
    }
}

/// Number of trailing bytes of `p` before the last `/` (the basename).
pub open spec fn basename_len(p: Seq<u8>) -> nat
    decreases p.len(),
{
    if p.len() == 0 || p.last() == 47u8 {
        0
    } else {
        basename_len(p.drop_last()) + 1
    }
}

/// The bytes after the last `/` of `p` (all of `p` when it has none).
pub open spec fn basename(p: Seq<u8>) -> Seq<u8> {
    p.subrange(p.len() - basename_len(p), p.len() as int)
}

/// The watch-rule key of a basename: right-aligned in 64 bytes, zero
/// padded on the left.
pub open spec fn rule_key(b: Seq<u8>) -> Seq<u8> {
    Seq::new(64, |i: int| if i < 64 - b.len() { 0u8 } else { b[i - (64 - b.len())] })
}

/// The watch-rule key of the basename `b` (at most 64 bytes).
pub fn watch_rule_key(b: &str) -> (r: [u8; 64])
    requires
        vstd::utf8::encode_utf8(b@).len() <= 64,
    ensures
        r@ == rule_key(vstd::utf8::encode_utf8(b@)),
{
    let bytes = b.as_bytes();
    let n = bytes.len();
    let mut key = [0u8; 64];
    let mut i: usize = 0;
    while i < n
        invariant
            n == bytes@.len(),
            n <= 64,
            i <= n,
            forall|j: int| 0 <= j < 64 - n ==> key@[j] == 0u8,
            forall|j: int| 64 - n <= j < 64 - n + i ==> key@[j] == bytes@[j - (64 - n)],
            forall|j: int| 64 - n + i <= j < 64 ==> key@[j] == 0u8,
        decreases n - i,
    {
        key[64 - n + i] = bytes[i];
        i += 1;
    }
    assert(key@ =~= rule_key(vstd::utf8::encode_utf8(b@)));
    key
}

/// The key the kernel program builds from a path: the rule key of the
/// path's basename, or nothing when the basename is 64 bytes or longer.
pub fn watch_key(path: &[u8]) -> (r: Option<[u8; 64]>)
    requires
        path@.len() <= 256,
    ensures
        match r {
            Some(k) => basename_len(path@) < 64 && k@ == rule_key(basename(path@)),
            None => basename_len(path@) >= 64,
        },
{
    let len = path.len();
    let mut key = [0u8; 64];
    let mut d: usize = 0;
    let mut terminated = false;
    while d < 64
        invariant
            len == path@.len(),
            len <= 256,
            d <= 64,
            terminated ==> basename_len(path@) < d,
            !terminated ==> d <= basename_len(path@),
            forall|i: int|
                64 - d <= i < 64 ==> #[trigger] key@[i] == if 63 - i < basename_len(path@) {
                    path@[len - 1 - (63 - i)]
                } else {
                    0u8
                },
            forall|j: int| 0 <= j < 64 - d ==> key@[j] == 0u8,
        decreases 64 - d,
    {
        proof {
            lemma_basename_len_step(path@, d as int);
        }
        let mut b: u8 = 0;
        if !terminated {
            if d >= len {
                terminated = true;
            } else {
                let c = path[len - 1 - d];
                if c == 47u8 {
                    terminated = true;
                } else {
                    b = c;
                }
            }
        }
        key[63 - d] = b;
        d += 1;
    }
    if !terminated {
        return None;
    }
    proof {
        let bl = basename_len(path@);
        lemma_basename_len_le(path@);
        assert(key@ =~= rule_key(basename(path@))) by {
            assert forall|i: int| 0 <= i < 64 implies key@[i] == rule_key(basename(path@))[i] by {
            }
        }
    }
    Some(key)
}

/// A path made of a directory part (empty or ending in `/`) and a name
/// without `/` has that name as its basename, so the key the kernel
/// program builds for it is the rule key of the name: a watched basename
/// matches every path that ends in it.
pub proof fn lemma_basename_of_path(dir: Seq<u8>, name: Seq<u8>)
    requires
        dir.len() == 0 || dir.last() == 47u8,
        forall|i: int| 0 <= i < name.len() ==> name[i] != 47u8,
    ensures
        basename_len(dir + name) == name.len(),
        basename(dir + name) == name,
        rule_key(basename(dir + name)) == rule_key(name),
    decreases name.len(),
{
    let p = dir + name;
    if name.len() == 0 {
        assert(p =~= dir);
    } else {
        assert(p.drop_last() =~= dir + name.drop_last());
        assert(p.last() == name.last());
        lemma_basename_of_path(dir, name.drop_last());
    }
    assert(basename(p) =~= name);
}

/// The basename is no longer than the path.
pub proof fn lemma_basename_len_le(p: Seq<u8>)
    ensures
        basename_len(p) <= p.len(),
    decreases p.len(),
{
    if p.len() > 0 && p.last() != 47u8 {
        lemma_basename_len_le(p.drop_last());
    }
}

/// The character `d` places from the end decides whether the basename
/// extends past it.
proof fn lemma_basename_len_step(p: Seq<u8>, d: int)
    requires
        0 <= d,
    ensures
        d <= basename_len(p) ==> (basename_len(p) == d <==> (d >= p.len() || p[p.len() - 1
            - d] == 47u8)),
    decreases p.len(),
{
    lemma_basename_len_le(p);
    if p.len() > 0 && p.last() != 47u8 && d > 0 {
        lemma_basename_len_step(p.drop_last(), d - 1);
    }
}

/// `TIF_32BIT` on arm64 (bit 22), used when no mask is configured.
pub const DEFAULT_TIF_32BIT: u64 = 0x40_0000;

/// Whether a task runs in 32-bit compat mode: its thread flags have the
/// configured mask's bit (the arm64 default when none is configured).
pub fn is_compat_task(tflags: u64, mask: Option<u64>) -> (r: bool)
    ensures
        r == (tflags & (match mask {
            Some(m) => m,
            None => DEFAULT_TIF_32BIT,
        }) != 0),
{
    let m = match mask {
        Some(m) => m,
        None => DEFAULT_TIF_32BIT,
    };
    tflags & m != 0
}

/// The rename family on arm64: `renameat` (38) and `renameat2` (276),
/// whose events carry the old path too.
pub open spec fn is_rename_nr(nr: u32) -> bool {
    nr == 38 || nr == 276
}

/// Whether the syscall number belongs to the rename family.
pub fn is_rename(nr: u32) -> (r: bool)
    ensures
        r == is_rename_nr(nr),
{
    nr == 38 || nr == 276
}

/// The argument layout the entry probe works with: the table entry for the
/// task's ABI (the 32-bit table for a compat task), or nothing when the
/// syscall has no entry or the process or user is whitelisted.
pub fn traced_args(
    is32: bool,
    entry64: Option<SyscallArgInfo>,
    entry32: Option<SyscallArgInfo>,
    pid_listed: bool,
    uid_listed: bool,
) -> (r: Option<SyscallArgInfo>)
    ensures
        r == if pid_listed || uid_listed {
            None
        } else if is32 {
            entry32
        } else {
            entry64
        },
{
    let info = if is32 {
        entry32
    } else {
        entry64
    };
    match info {
        None => None,
        Some(i) => if pid_listed || uid_listed {
            None
        } else {
            Some(i)
        },
    }
}

/// Whether the entry probe records a pending event. `first` is the
/// pointer read from the string register, `later` the one read two
/// registers further (read for the rename family only), `None` when the
/// read faulted.
pub open spec fn enter_records(
    nr: u32,
    info: SyscallArgInfo,
    first: Option<u64>,
    later: Option<u64>,
    flag_word: Option<u64>,
    new_hit: bool,
    old_hit: bool,
) -> bool {
    &&& (first matches Some(p) && p != 0)
    &&& is_rename_nr(nr) ==> later is Some
    &&& (info.flags & SYSCALL_FLAG_PRINT != 0 || enter_watched(
        nr,
        info,
        first,
        flag_word,
        new_hit,
        old_hit,
    ))
}

/// The path pointer recorded: for the rename family the new path when its
/// pointer is set, else the pointer in the string register.
pub open spec fn enter_fname(nr: u32, first: Option<u64>, later: Option<u64>) -> u64 {
    if is_rename_nr(nr) && (later matches Some(q) && q != 0) {
        later.unwrap()
    } else {
        first.unwrap()
    }
}

/// The old path pointer recorded: set for the rename family only.
pub open spec fn enter_old(nr: u32, first: Option<u64>) -> u64 {
    if is_rename_nr(nr) {
        first.unwrap()
    } else {
        0
    }
}

/// Whether the flag filter applies: a watched syscall with a flag mask.
pub open spec fn flag_filtered(info: SyscallArgInfo) -> bool {
    info.flags & SYSCALL_FLAG_WATCH != 0 && info.fl_mask != 0
}

/// The syscall flags recorded: the low 32 bits of the flag register (0
/// when its read faulted) when the flag filter applies, else 0.
pub open spec fn enter_sflags(info: SyscallArgInfo, flag_word: Option<u64>) -> u32 {
    if flag_filtered(info) {
        (match flag_word {
            Some(w) => w,
            None => 0,
        }) as u32
    } else {
        0
    }
}

/// Whether the event is a watch hit: the syscall is watched, passes the
/// flag filter, and the new path's basename (or else the old path's) is
/// a watch rule.
pub open spec fn enter_watched(
    nr: u32,
    info: SyscallArgInfo,
    first: Option<u64>,
    flag_word: Option<u64>,
    new_hit: bool,
    old_hit: bool,
) -> bool {
    &&& info.flags & SYSCALL_FLAG_WATCH != 0
    &&& (flag_filtered(info) ==> enter_sflags(info, flag_word) & info.fl_mask != 0)
    &&& (new_hit || (enter_old(nr, first) != 0 && old_hit))
}

/// The entry probe's decision for a syscall whose arguments are
/// configured and whose task is not whitelisted: the pending record, or
/// nothing when the path pointer is missing, a needed read faulted, or
/// the syscall is neither printed nor a watch hit.
pub fn enter_record(
    nr: u32,
    info: SyscallArgInfo,
    first: Option<u64>,
    later: Option<u64>,
    flag_word: Option<u64>,
    new_hit: bool,
    old_hit: bool,
) -> (r: Option<PendingPrint>)
    ensures
        r is Some <==> enter_records(nr, info, first, later, flag_word, new_hit, old_hit),
        r matches Some(pp) ==> {
            &&& pp.syscall_nr == nr
            &&& pp.fname_ptr == enter_fname(nr, first, later)
            &&& pp.old_fname_ptr == enter_old(nr, first)
            &&& pp.sflags == enter_sflags(info, flag_word)
            &&& pp.watched == (if enter_watched(nr, info, first, flag_word, new_hit, old_hit) {
                1u8
            } else {
                0u8
            })
            &&& pp._pad1@ == seq![0u8, 0u8, 0u8]
        },
{
    let p = match first {
        Some(p) => p,
        None => return None,
    };
    if p == 0 {
        return None;
    }
    let mut fname_ptr = p;
    let mut old_fname_ptr: u64 = 0;
    if is_rename(nr) {
        old_fname_ptr = p;
        let q = match later {
            Some(q) => q,
            None => return None,
        };
        if q != 0 {
            fname_ptr = q;
        }
    }
    let mut watched: u8 = 0;
    let mut sflags: u32 = 0;
    let mut do_print = info.flags & SYSCALL_FLAG_PRINT != 0;
    if info.flags & SYSCALL_FLAG_WATCH != 0 {
        let mut watch_ok = true;
        if info.fl_mask != 0 {
            let w = match flag_word {
                Some(w) => w,
                None => 0,
            };
            sflags = w as u32;
            watch_ok = sflags & info.fl_mask != 0;
        }
        if watch_ok {
            watch_ok = new_hit || (old_fname_ptr != 0 && old_hit);
        }
        if watch_ok {
            watched = 1;
            do_print = true;
        }
    }
    if !do_print {
        return None;
    }
    let pp = PendingPrint {
        syscall_nr: nr,
        watched,
        _pad1: [0u8; 3],
        sflags,
        fname_ptr,
        old_fname_ptr,
    };
    assert(pp._pad1@ =~= seq![0u8, 0u8, 0u8]);
    Some(pp)
}

/// A syscall configured for printing is recorded at every entry whose
/// path pointer is set (and, for a rename, whose second pointer could be
/// read), whatever its flags and watch rules.
pub proof fn lemma_printed_always_recorded(
    nr: u32,
    info: SyscallArgInfo,
    p: u64,
    later: Option<u64>,
    flag_word: Option<u64>,
    new_hit: bool,
    old_hit: bool,
)
    requires
        info.flags & SYSCALL_FLAG_PRINT != 0,
        p != 0,
        is_rename_nr(nr) ==> later is Some,
    ensures
        enter_records(nr, info, Some(p), later, flag_word, new_hit, old_hit),
{
}

/// A watched syscall without a flag filter is recorded, as a watch hit,
/// whenever the new path's basename is a watch rule.
pub proof fn lemma_watch_hit_recorded(
    nr: u32,
    info: SyscallArgInfo,
    p: u64,
    later: Option<u64>,
    flag_word: Option<u64>,
    old_hit: bool,
)
    requires
        info.flags & SYSCALL_FLAG_WATCH != 0,
        info.fl_mask == 0,
        p != 0,
        is_rename_nr(nr) ==> later is Some,
    ensures
        enter_records(nr, info, Some(p), later, flag_word, true, old_hit),
        enter_watched(nr, info, Some(p), flag_word, true, old_hit),
{
}

/// The event the exit probe submits for a pending record: process and
/// thread id from `pid_tgid`, uid from the low half of `uid_gid`, the
/// syscall's return value, the task name and the path(s) read back.
/// The old path stays zeroed unless the record carries one.
pub fn exit_event(
    pp: &PendingPrint,
    pid_tgid: u64,
    uid_gid: u64,
    ret: i64,
    comm: [u8; 16],
    fname: [u8; 256],
    old_fname: [u8; 256],
) -> (e: FileEvent)
    ensures
        e.pid == (pid_tgid >> 32u64) as u32,
        e.tid == pid_tgid as u32,
        e.uid == (uid_gid & 0xFFFF_FFFFu64) as u32,
        e.syscall_nr == pp.syscall_nr,
        e.ret == ret,
        e.watched == pp.watched,
        e.sflags == pp.sflags,
        e.comm == comm,
        e.fname == fname,
        e._pad1@ == seq![0u8, 0u8, 0u8],
        pp.old_fname_ptr != 0 ==> e.old_fname == old_fname,
        pp.old_fname_ptr == 0 ==> forall|i: int| 0 <= i < 256 ==> e.old_fname[i] == 0u8,
{
    let mut e = FileEvent::zeroed();
    e.pid = (pid_tgid >> 32u64) as u32;
    e.tid = pid_tgid as u32;
    e.uid = (uid_gid & 0xFFFF_FFFFu64) as u32;
    e.syscall_nr = pp.syscall_nr;
    e.ret = ret;
    e.watched = pp.watched;
    e.sflags = pp.sflags;
    e.comm = comm;
    e.fname = fname;
    if pp.old_fname_ptr != 0 {
        e.old_fname = old_fname;
    }
    assert(e._pad1@ =~= seq![0u8, 0u8, 0u8]);
    e
}

} // verus!
