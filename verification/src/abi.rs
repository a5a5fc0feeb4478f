//! Binary layout shared between the kernel program and the daemon.
use vstd::prelude::*;

verus! {

/// Maximum path bytes captured per event.
pub const MAX_PATH_LEN: usize = 256;
/// Size of the task `comm` buffer.
pub const TASK_COMM_LEN: usize = 16;
/// Size of a watch-rule key (a right-aligned basename).
pub const WATCH_BASE_MAX: usize = 64;
/// Size in bytes of a serialized [`FileEvent`].
pub const FILE_EVENT_SIZE: usize = 560;

/// Per-syscall flag: report every call.
pub const SYSCALL_FLAG_PRINT: u32 = 2;
/// Per-syscall flag: report calls whose path basename is watched.
pub const SYSCALL_FLAG_WATCH: u32 = 4;

/// What the kernel program needs to know about one syscall number.
#[derive(Clone, Copy, Debug, Default, PartialEq, Eq, Structural)]
pub struct SyscallArgInfo {
    pub str_reg_idx: u32,
    pub flags: u32,
    pub fl_reg_idx: u32,
    pub fl_mask: u32,
}

/// Map value stored for a syscall number (same fields as
/// [`SyscallArgInfo`]).
#[derive(Clone, Copy, Debug, Default, PartialEq, Eq, Structural)]
pub struct ArgInfo {
    pub str_reg_idx: u32,
    pub flags: u32,
    pub fl_reg_idx: u32,
    pub fl_mask: u32,
}

/// The map value for a validated entry.
pub open spec fn arg_info_of(v: SyscallArgInfo) -> ArgInfo {
    ArgInfo {
        str_reg_idx: v.str_reg_idx,
        flags: v.flags,
        fl_reg_idx: v.fl_reg_idx,
        fl_mask: v.fl_mask,
    }
}

impl<'a> From<&'a SyscallArgInfo> for ArgInfo {
    fn from(v: &'a SyscallArgInfo) -> (r: ArgInfo) {
        ArgInfo {
            str_reg_idx: v.str_reg_idx,
            flags: v.flags,
            fl_reg_idx: v.fl_reg_idx,
            fl_mask: v.fl_mask,
        }
    }
}

impl<'a> vstd::std_specs::convert::FromSpecImpl<&'a SyscallArgInfo> for ArgInfo {
    open spec fn obeys_from_spec() -> bool {
        true
    }

    open spec fn from_spec(v: &'a SyscallArgInfo) -> ArgInfo {
        arg_info_of(*v)
    }
}

/// Little-endian unsigned value of `n` bytes of `s` starting at `off`.
pub open spec fn le_value(s: Seq<u8>, off: int, n: nat) -> nat
    decreases n,
{
    if n == 0 {
        0
    } else {
        (s[off] as nat) + 256 * le_value(s, off + 1, (n - 1) as nat)
    }
}

/// Reads a little-endian `u32` at `off`.
pub fn read_le_u32(s: &[u8], off: usize) -> (r: u32)
    requires
        off + 4 <= s@.len(),
    ensures
        r as nat == le_value(s@, off as int, 4),
{
    let b0 = s[off];
    let b1 = s[off + 1];
    let b2 = s[off + 2];
    let b3 = s[off + 3];
    proof {
        reveal_with_fuel(le_value, 5);
    }
    let r = (b0 as u32) | ((b1 as u32) << 8) | ((b2 as u32) << 16) | ((b3 as u32) << 24);
    assert(((b0 as u32) | ((b1 as u32) << 8) | ((b2 as u32) << 16) | ((b3 as u32) << 24)) as u64
        == (b0 as u64) + (b1 as u64) * 256 + (b2 as u64) * 65536 + (b3 as u64) * 16777216)
        by (bit_vector);
    r
}


/// Reads a little-endian `u64` at `off`.
pub fn read_le_u64(s: &[u8], off: usize) -> (r: u64)
    requires
        off + 8 <= s@.len(),
    ensures
        r as nat == le_value(s@, off as int, 8),
{
    let b0 = s[off] as u64;
    let b1 = s[off + 1] as u64;
    let b2 = s[off + 2] as u64;
    let b3 = s[off + 3] as u64;
    let b4 = s[off + 4] as u64;
    let b5 = s[off + 5] as u64;
    let b6 = s[off + 6] as u64;
    let b7 = s[off + 7] as u64;
    proof {
        reveal_with_fuel(le_value, 9);
    }
    let r = b0 | (b1 << 8) | (b2 << 16) | (b3 << 24) | (b4 << 32) | (b5 << 40) | (b6 << 48) | (b7
        << 56);
    assert(b0 < 256 && b1 < 256 && b2 < 256 && b3 < 256 && b4 < 256 && b5 < 256 && b6 < 256 && b7
        < 256 ==> b0 | (b1 << 8) | (b2 << 16) | (b3 << 24) | (b4 << 32) | (b5 << 40) | (b6 << 48) | (
    b7 << 56) == b0 + b1 * 0x100 + b2 * 0x10000 + b3 * 0x1000000 + b4 * 0x100000000 + b5
        * 0x10000000000 + b6 * 0x1000000000000 + b7 * 0x100000000000000) by (bit_vector);
    r
}

/// Kind of file operation an event reports.
#[derive(Clone, Copy, Debug, PartialEq, Eq, Structural)]
pub enum FileOp {
    Create,
    Mkdir,
    Rename,
    Unlink,
    Unknown,
}

/// The operation that a numeric code denotes.
pub open spec fn file_op_of(v: u32) -> FileOp {
    if v == 0 {
        FileOp::Create
    } else if v == 1 {
        FileOp::Mkdir
    } else if v == 2 {
        FileOp::Rename
    } else if v == 3 {
        FileOp::Unlink
    } else {
        FileOp::Unknown
    }
}

impl From<u32> for FileOp {
    fn from(v: u32) -> (r: FileOp) {
        if v == 0 {
            FileOp::Create
        } else if v == 1 {
            FileOp::Mkdir
        } else if v == 2 {
            FileOp::Rename
        } else if v == 3 {
            FileOp::Unlink
        } else {
            FileOp::Unknown
        }
    }
}

impl vstd::std_specs::convert::FromSpecImpl<u32> for FileOp {
    open spec fn obeys_from_spec() -> bool {
        true
    }

    open spec fn from_spec(v: u32) -> FileOp {
        file_op_of(v)
    }
}

/// Event record handed from the kernel program to the daemon.
/// `old_fname` is filled only for renames.
#[derive(Clone, Copy)]
pub struct FileEvent {
    pub pid: u32,
    pub tid: u32,
    pub uid: u32,
    pub syscall_nr: u32,
    pub ret: i64,
    pub watched: u8,
    pub _pad1: [u8; 3],
    pub sflags: u32,
    pub comm: [u8; 16],
    pub fname: [u8; 256],
    pub old_fname: [u8; 256],
}

/// The event type the daemon prints and stores.
pub type PrintEvent = FileEvent;

impl FileEvent {
    /// An event whose every byte is zero.
    pub fn zeroed() -> (r: FileEvent)
        ensures
            r.pid == 0 && r.tid == 0 && r.uid == 0 && r.syscall_nr == 0 && r.ret == 0,
            r.watched == 0 && r.sflags == 0,
            forall|i: int| 0 <= i < 3 ==> r._pad1[i] == 0,
            forall|i: int| 0 <= i < 16 ==> r.comm[i] == 0,
            forall|i: int| 0 <= i < 256 ==> r.fname[i] == 0,
            forall|i: int| 0 <= i < 256 ==> r.old_fname[i] == 0,
    {
        FileEvent {
            pid: 0,
            tid: 0,
            uid: 0,
            syscall_nr: 0,
            ret: 0,
            watched: 0,
            _pad1: [0u8; 3],
            sflags: 0,
            comm: [0u8; 16],
            fname: [0u8; 256],
            old_fname: [0u8; 256],
        }
    }

    /// The operation this event reports.
    pub fn op(&self) -> (r: FileOp)
        ensures
            r == file_op_of(self.syscall_nr),
    {
        FileOp::from(self.syscall_nr)
    }
}

/// `dst` is the `n` bytes of `s` starting at `off`.
pub open spec fn bytes_at(dst: Seq<u8>, s: Seq<u8>, off: int, n: int) -> bool {
    dst.len() == n && forall|i: int| 0 <= i < n ==> dst[i] == s[off + i]
}

/// `e` is the event laid out (C layout, little endian) in the first
/// `FILE_EVENT_SIZE` bytes of `s`.
pub open spec fn event_layout(e: FileEvent, s: Seq<u8>) -> bool {
    &&& e.pid as nat == le_value(s, 0, 4)
    &&& e.tid as nat == le_value(s, 4, 4)
    &&& e.uid as nat == le_value(s, 8, 4)
    &&& e.syscall_nr as nat == le_value(s, 12, 4)
    &&& e.ret as int == if le_value(s, 16, 8) < 0x8000000000000000 { le_value(s, 16, 8) as int } else { le_value(s, 16, 8) - 0x10000000000000000 }
    &&& e.watched == s[24]
    &&& bytes_at(e._pad1@, s, 25, 3)
    &&& e.sflags as nat == le_value(s, 28, 4)
    &&& bytes_at(e.comm@, s, 32, 16)
    &&& bytes_at(e.fname@, s, 48, 256)
    &&& bytes_at(e.old_fname@, s, 304, 256)
}

/// Every field of an event laid out in a record is made of its own bytes
/// of the record, all of them: the integers little endian (`ret` two's
/// complement), the byte arrays copied whole.
pub proof fn lemma_event_fields(e: FileEvent, s: Seq<u8>)
    requires
        event_layout(e, s),
        s.len() >= FILE_EVENT_SIZE,
    ensures
        e.pid == s[0] + s[1] * 0x100 + s[2] * 0x1_0000 + s[3] * 0x100_0000,
        e.tid == s[4] + s[5] * 0x100 + s[6] * 0x1_0000 + s[7] * 0x100_0000,
        e.uid == s[8] + s[9] * 0x100 + s[10] * 0x1_0000 + s[11] * 0x100_0000,
        e.syscall_nr == s[12] + s[13] * 0x100 + s[14] * 0x1_0000 + s[15] * 0x100_0000,
        e.ret == s[16] + s[17] * 0x100 + s[18] * 0x1_0000 + s[19] * 0x100_0000 + s[20]
            * 0x1_0000_0000 + s[21] * 0x100_0000_0000 + s[22] * 0x1_0000_0000_0000 + s[23]
            * 0x100_0000_0000_0000 - (if s[23] >= 0x80 {
            0x1_0000_0000_0000_0000int
        } else {
            0int
        }),
        e.watched == s[24],
        e._pad1@ == s.subrange(25, 28),
        e.sflags == s[28] + s[29] * 0x100 + s[30] * 0x1_0000 + s[31] * 0x100_0000,
        e.comm@ == s.subrange(32, 48),
        e.fname@ == s.subrange(48, 304),
        e.old_fname@ == s.subrange(304, 560),
{
    reveal_with_fuel(le_value, 9);
    assert(e._pad1@ =~= s.subrange(25, 28));
    assert(e.comm@ =~= s.subrange(32, 48));
    assert(e.fname@ =~= s.subrange(48, 304));
    assert(e.old_fname@ =~= s.subrange(304, 560));
}

/// Decodes an event from the bytes the kernel program wrote. Fails exactly
/// when fewer than `FILE_EVENT_SIZE` bytes are given; bytes beyond the
/// record are ignored. Each field is its own bytes of the record, all of
/// them.
pub fn decode_file_event(data: &[u8]) -> (r: Option<FileEvent>)
    ensures
        r is None <==> data@.len() < FILE_EVENT_SIZE,
        r matches Some(e) ==> event_layout(e, data@),
        r matches Some(e) ==> e.pid == data@[0] + data@[1] * 0x100 + data@[2] * 0x1_0000 + data@[3]
            * 0x100_0000 && e.tid == data@[4] + data@[5] * 0x100 + data@[6] * 0x1_0000 + data@[7]
            * 0x100_0000 && e.uid == data@[8] + data@[9] * 0x100 + data@[10] * 0x1_0000 + data@[11]
            * 0x100_0000 && e.syscall_nr == data@[12] + data@[13] * 0x100 + data@[14] * 0x1_0000
            + data@[15] * 0x100_0000 && e.sflags == data@[28] + data@[29] * 0x100 + data@[30]
            * 0x1_0000 + data@[31] * 0x100_0000,
        r matches Some(e) ==> e.ret == data@[16] + data@[17] * 0x100 + data@[18] * 0x1_0000 + data@[19]
            * 0x100_0000 + data@[20] * 0x1_0000_0000 + data@[21] * 0x100_0000_0000 + data@[22]
            * 0x1_0000_0000_0000 + data@[23] * 0x100_0000_0000_0000 - (if data@[23] >= 0x80 {
            0x1_0000_0000_0000_0000int
        } else {
            0int
        }),
        r matches Some(e) ==> e.watched == data@[24] && e._pad1@ == data@.subrange(25, 28)
            && e.comm@ == data@.subrange(32, 48) && e.fname@ == data@.subrange(48, 304)
            && e.old_fname@ == data@.subrange(304, 560),
{
    if data.len() < FILE_EVENT_SIZE {
        return None;
    }
    let pid = read_le_u32(data, 0);
    let tid = read_le_u32(data, 4);
    let uid = read_le_u32(data, 8);
    let syscall_nr = read_le_u32(data, 12);
    let raw = read_le_u64(data, 16);
    let ret: i64 = if raw < 0x8000_0000_0000_0000 {
        raw as i64
    } else {
        ((raw - 0x8000_0000_0000_0000) as i64) + i64::MIN
    };
    let watched = data[24];
    let sflags = read_le_u32(data, 28);
    let mut pad = [0u8; 3];
    let mut i: usize = 0;
    while i < 3
        invariant
            i <= 3,
            data@.len() >= FILE_EVENT_SIZE,
            forall|j: int| 0 <= j < i ==> pad@[j] == data@[25 + j],
        decreases 3 - i,
    {
        pad[i] = data[25 + i];
        i += 1;
    }
    let mut comm = [0u8; 16];
    let mut i: usize = 0;
    while i < 16
        invariant
            i <= 16,
            data@.len() >= FILE_EVENT_SIZE,
            forall|j: int| 0 <= j < i ==> comm@[j] == data@[32 + j],
        decreases 16 - i,
    {
        comm[i] = data[32 + i];
        i += 1;
    }
    let mut fname = [0u8; 256];
    let mut old_fname = [0u8; 256];
    let mut i: usize = 0;
    while i < 256
        invariant
            i <= 256,
            data@.len() >= FILE_EVENT_SIZE,
            forall|j: int| 0 <= j < i ==> fname@[j] == data@[48 + j],
            forall|j: int| 0 <= j < i ==> old_fname@[j] == data@[304 + j],
        decreases 256 - i,
    {
        fname[i] = data[48 + i];
        old_fname[i] = data[304 + i];
        i += 1;
    }
    let e = FileEvent {
        pid,
        tid,
        uid,
        syscall_nr,
        ret,
        watched,
        _pad1: pad,
        sflags,
        comm,
        fname,
        old_fname,
    };
    proof {
        assert(event_layout(e, data@));
        lemma_event_fields(e, data@);
    }
    Some(e)
}

/// Per-thread state kept between syscall entry and exit.
#[derive(Clone, Copy, Debug, Default)]
pub struct PendingPrint {
    pub syscall_nr: u32,
    pub watched: u8,
    pub _pad1: [u8; 3],
    pub sflags: u32,
    pub fname_ptr: u64,
    pub old_fname_ptr: u64,
}

/// Per-CPU scratch buffer the kernel program reads paths into.
#[derive(Clone, Copy)]
pub struct Scratch {
    pub b: [u8; 256],
}

impl Default for Scratch {
    /// An all-zero buffer.
    fn default() -> (r: Scratch)
        ensures
            forall|i: int| 0 <= i < 256 ==> r.b[i] == 0u8,
    {
        Scratch { b: [0u8; 256] }
    }
}

impl Default for FileEvent {
    /// The all-zero event.
    fn default() -> (r: FileEvent)
        ensures
            r.pid == 0 && r.tid == 0 && r.uid == 0 && r.syscall_nr == 0 && r.ret == 0,
            r.watched == 0 && r.sflags == 0,
            forall|i: int| 0 <= i < 3 ==> r._pad1[i] == 0,
            forall|i: int| 0 <= i < 16 ==> r.comm[i] == 0,
            forall|i: int| 0 <= i < 256 ==> r.fname[i] == 0,
            forall|i: int| 0 <= i < 256 ==> r.old_fname[i] == 0,
    {
        FileEvent::zeroed()
    }
}

} // verus!
