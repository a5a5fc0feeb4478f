//! Recorded file events: their fields, the identity of the file they are
//! about, and the hash that links each to its predecessor.
use vstd::prelude::*;
use std::collections::hash_map::DefaultHasher;
use std::hash::{BuildHasher, BuildHasherDefault};

use crate::text::{push_char, push_str};

verus! {

/// One recorded file event.
#[derive(Clone, Debug)]
pub struct Ev {
    pub seq: u64,
    pub ts: String,
    pub epoch_ms: i64,
    pub pid: u32,
    pub tid: u32,
    pub uid: u32,
    pub comm: String,
    pub pkg: String,
    pub op: String,
    pub ret: i64,
    pub flags: u32,
    pub file: String,
    pub cmd: String,
    pub old_file: String,
    pub dev: u64,
    pub ino: u64,
    pub file_id: u64,
    pub prev_hash: String,
    pub hash: String,
}

/// Abstract value of an [`Ev`]: its fields, texts as characters.
pub struct EvView {
    pub seq: u64,
    pub ts: Seq<char>,
    pub epoch_ms: i64,
    pub pid: u32,
    pub tid: u32,
    pub uid: u32,
    pub comm: Seq<char>,
    pub pkg: Seq<char>,
    pub op: Seq<char>,
    pub ret: i64,
    pub flags: u32,
    pub file: Seq<char>,
    pub cmd: Seq<char>,
    pub old_file: Seq<char>,
    pub dev: u64,
    pub ino: u64,
    pub file_id: u64,
    pub prev_hash: Seq<char>,
    pub hash: Seq<char>,
}

impl View for Ev {
    type V = EvView;

    open spec fn view(&self) -> EvView {
        EvView {
            seq: self.seq,
            ts: self.ts@,
            epoch_ms: self.epoch_ms,
            pid: self.pid,
            tid: self.tid,
            uid: self.uid,
            comm: self.comm@,
            pkg: self.pkg@,
            op: self.op@,
            ret: self.ret,
            flags: self.flags,
            file: self.file@,
            cmd: self.cmd@,
            old_file: self.old_file@,
            dev: self.dev,
            ino: self.ino,
            file_id: self.file_id,
            prev_hash: self.prev_hash@,
            hash: self.hash@,
        }
    }
}

/// Hash of a file name under std's `DefaultHasher` (SipHash with fixed
/// keys), as `Hash for String` feeds it.
pub uninterp spec fn default_str_hash(s: Seq<char>) -> u64;

/// Hashes a string with a fresh std `DefaultHasher` (`BuildHasher::hash_one`
/// of `BuildHasherDefault<DefaultHasher>`: `String::hash`, then
/// `Hasher::finish`). Every `DefaultHasher::new` starts from the same keys,
/// so the result depends on the string alone.
#[verifier::external_body]
fn hash_str(s: &String) -> (r: u64)
    ensures
        r == default_str_hash(s@),
{
    BuildHasherDefault::<DefaultHasher>::default().hash_one(s)
}

/// Identity of the file an event is about.
pub open spec fn file_id_of(e: Ev) -> u64 {
    if e.file_id != 0 {
        e.file_id
    } else if e.ino != 0 {
        (e.dev << 32u64) ^ e.ino
    } else {
        default_str_hash(e.file@)
    }
}

impl Ev {
    /// A field-by-field copy.
    pub fn duplicate(&self) -> (r: Ev)
        ensures
            r == *self,
    {
        Ev {
            seq: self.seq,
            ts: self.ts.clone(),
            epoch_ms: self.epoch_ms,
            pid: self.pid,
            tid: self.tid,
            uid: self.uid,
            comm: self.comm.clone(),
            pkg: self.pkg.clone(),
            op: self.op.clone(),
            ret: self.ret,
            flags: self.flags,
            file: self.file.clone(),
            cmd: self.cmd.clone(),
            old_file: self.old_file.clone(),
            dev: self.dev,
            ino: self.ino,
            file_id: self.file_id,
            prev_hash: self.prev_hash.clone(),
            hash: self.hash.clone(),
        }
    }

    /// The stored file id, else one derived from device and inode, else a
    /// hash of the path.
    pub fn file_id_computed(&self) -> (r: u64)
        ensures
            r == file_id_of(*self),
    {
        if self.file_id != 0 {
            self.file_id
        } else if self.ino != 0 {
            (self.dev << 32u64) ^ self.ino
        } else {
            hash_str(&self.file)
        }
    }
}

/// The last `limit` elements of `s` (all of them when fewer).
pub open spec fn tail<T>(s: Seq<T>, limit: nat) -> Seq<T> {
    if s.len() <= limit {
        s
    } else {
        s.subrange(s.len() - limit, s.len() as int)
    }
}

/// BLAKE3 digest of `data`, as lowercase hex.
pub uninterp spec fn blake3_hex(data: Seq<u8>) -> Seq<char>;

/// `blake3::hash` of the UTF-8 bytes of `s`, rendered by `Hash::to_hex`:
/// the 32-byte digest as 64 hex characters.
#[verifier::external_body]
pub(crate) fn hash_of(s: &str) -> (r: String)
    ensures
        r@ == blake3_hex(vstd::utf8::encode_utf8(s@)),
        r@.len() == 64,
{
    blake3::hash(s.as_bytes()).to_hex().to_string()
}

/// The ASCII digit for `d` (0..=9).
pub open spec fn digit_char(d: nat) -> char {
    ((48 + d) as u32) as char
}

/// Decimal digits of `n` (no leading zeros; "0" for zero).
pub open spec fn dec_nat(n: nat) -> Seq<char>
    decreases n,
{
    if n < 10 {
        seq![digit_char(n)]
    } else {
        dec_nat(n / 10).push(digit_char(n % 10))
    }
}

/// Decimal rendering of `i`, with a leading `-` when negative.
pub open spec fn dec_int(i: int) -> Seq<char> {
    if i < 0 {
        seq!['-'] + dec_nat((-i) as nat)
    } else {
        dec_nat(i as nat)
    }
}

/// The ASCII digit for `d`.
fn digit(d: u64) -> (c: char)
    requires
        d < 10,
    ensures
        c == digit_char(d as nat),
{
    let b: u8 = 48u8 + (d as u8);
    let c = b as char;
    assert(c == digit_char(d as nat)) by {
        assert(b as u32 == 48 + d);
    }
    c
}

/// `n` in decimal, as its `Display` impl renders it.
pub(crate) fn fmt_u64(n: u64) -> (r: String)
    ensures
        r@ == dec_nat(n as nat),
    decreases n,
{
    if n < 10 {
        let mut s = String::new();
        push_char(&mut s, digit(n));
        assert(s@ =~= seq![digit_char(n as nat)]);
        s
    } else {
        let mut s = fmt_u64(n / 10);
        push_char(&mut s, digit(n % 10));
        s
    }
}

/// `n` in decimal, with a leading `-` when negative, as its `Display`
/// impl renders it.
pub(crate) fn fmt_i64(n: i64) -> (r: String)
    ensures
        r@ == dec_int(n as int),
{
    if n < 0 {
        let m: u64 = (0i128 - (n as i128)) as u64;
        let digits = fmt_u64(m);
        let mut s = String::new();
        push_char(&mut s, '-');
        push_str(&mut s, digits.as_str());
        assert(s@ =~= seq!['-'] + dec_nat((-n) as nat));
        s
    } else {
        fmt_u64(n as u64)
    }
}

/// Text hashed for an event: file id, operation, file, time and the
/// previous hash, separated by `|`.
pub open spec fn chain_input(
    fid: u64,
    op: Seq<char>,
    file: Seq<char>,
    epoch_ms: i64,
    prev: Seq<char>,
) -> Seq<char> {
    dec_nat(fid as nat) + "|"@ + op + "|"@ + file + "|"@ + dec_int(epoch_ms as int) + "|"@ + prev
}

/// Builds the hashed text of an event.
pub fn chain_text(fid: u64, op: &str, file: &str, epoch_ms: i64, prev: &str) -> (r: String)
    ensures
        r@ == chain_input(fid, op@, file@, epoch_ms, prev@),
{
    let mut t = fmt_u64(fid);
    push_str(&mut t, "|");
    push_str(&mut t, op);
    push_str(&mut t, "|");
    push_str(&mut t, file);
    push_str(&mut t, "|");
    let e = fmt_i64(epoch_ms);
    push_str(&mut t, e.as_str());
    push_str(&mut t, "|");
    push_str(&mut t, prev);
    t
}

} // verus!
