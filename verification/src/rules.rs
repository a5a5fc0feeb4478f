//! Turning selected print/watch groups into the per-syscall entries the
//! kernel program is loaded with.
use vstd::prelude::*;

use crate::config::{ConfigError, ValidatedConfig};
use crate::text::{message3, push_str};
use crate::abi::{SyscallArgInfo, SYSCALL_FLAG_PRINT, SYSCALL_FLAG_WATCH, WATCH_BASE_MAX};
use crate::catalog::{
    args_view, defs_view, ArgDef, SyscallDef, groups_view, opt_str_view, strs_view, ArgDefView, ArgType, SyscallDefView, SyscallGroup,
    SyscallGroupView,
};

verus! {

/// Abstract state of one activated syscall while groups are applied.
pub struct ActiveView {
    pub name: Seq<char>,
    pub flags: u32,
    pub watch_param: Option<Seq<char>>,
    pub watch_set: bool,
    pub fl_param: Option<Seq<char>>,
    pub fl_mask: u32,
}

/// Why a configuration is rejected.
pub enum Fault {
    UnknownPrintGroup(Seq<char>),
    UnknownWatchGroup(Seq<char>),
    UnpairedFlagFilter(Seq<char>),
    ConflictingWatchParams(Seq<char>),
    ConflictingFlagFilters(Seq<char>),
    UndefinedSyscall(Seq<char>),
    NoStrParam(Seq<char>, bool),
    NoIntParam(Seq<char>, bool, Seq<char>),
    BadBasename(Seq<char>),
}

/// ABI label used in messages.
pub open spec fn abi_label(is64: bool) -> Seq<char> {
    if is64 {
        "arm64"@
    } else {
        "arm32"@
    }
}

/// The message reported for a fault.
pub open spec fn fault_message(f: Fault) -> Seq<char> {
    match f {
        Fault::UnknownPrintGroup(g) => "[print]: unknown group '"@ + g + "'"@,
        Fault::UnknownWatchGroup(g) => "[watch]: unknown group '"@ + g + "'"@,
        Fault::UnpairedFlagFilter(g) => "[watch]: group '"@ + g
            + "': watch_flag_mask 与 watch_flag_param 必须成对出现"@,
        Fault::ConflictingWatchParams(s) => "syscall '"@ + s + "': conflicting watch params"@,
        Fault::ConflictingFlagFilters(s) => "syscall '"@ + s
            + "': conflicting watch flag filters"@,
        Fault::UndefinedSyscall(s) => "undefined syscall '"@ + s + "'"@,
        Fault::NoStrParam(s, is64) => "syscall '"@ + s + "' "@ + abi_label(is64)
            + ": no str param"@,
        Fault::NoIntParam(s, is64, p) => "syscall '"@ + s + "' "@ + abi_label(is64)
            + ": no int param '"@ + p + "'"@,
        Fault::BadBasename(b) => "[watch]: basename '"@ + b + "' 长度须在 1..63 字节"@,
    }
}

/// Index of the last activated syscall called `name`, or -1.
pub open spec fn last_active(acts: Seq<ActiveView>, name: Seq<char>) -> int
    decreases acts.len(),
{
    if acts.len() == 0 {
        -1
    } else if acts.last().name == name {
        acts.len() - 1
    } else {
        last_active(acts.drop_last(), name)
    }
}

/// Index of the last group called `name`, or -1.
pub open spec fn last_group(groups: Seq<SyscallGroupView>, name: Seq<char>) -> int
    decreases groups.len(),
{
    if groups.len() == 0 {
        -1
    } else if groups.last().name == name {
        groups.len() - 1
    } else {
        last_group(groups.drop_last(), name)
    }
}

/// Index of the first group called `name`, or -1.
pub open spec fn first_group(groups: Seq<SyscallGroupView>, name: Seq<char>) -> int
    decreases groups.len(),
{
    if groups.len() == 0 {
        -1
    } else if first_group(groups.drop_last(), name) >= 0 {
        first_group(groups.drop_last(), name)
    } else if groups.last().name == name {
        groups.len() - 1
    } else {
        -1
    }
}

/// Index of the last syscall definition called `name`, or -1.
pub open spec fn last_def(defs: Seq<SyscallDefView>, name: Seq<char>) -> int
    decreases defs.len(),
{
    if defs.len() == 0 {
        -1
    } else if defs.last().name == name {
        defs.len() - 1
    } else {
        last_def(defs.drop_last(), name)
    }
}

/// A syscall that no group has touched yet.
pub open spec fn blank_active(name: Seq<char>) -> ActiveView {
    ActiveView {
        name,
        flags: 0,
        watch_param: None,
        watch_set: false,
        fl_param: None,
        fl_mask: 0,
    }
}

/// The entry for `name`: the existing one at `k`, or a fresh one.
pub open spec fn active_at(acts: Seq<ActiveView>, k: int, name: Seq<char>) -> ActiveView {
    if k < 0 {
        blank_active(name)
    } else {
        acts[k]
    }
}

/// Stores `e` at `k`, or appends it when `k` is -1.
pub open spec fn put_active(acts: Seq<ActiveView>, k: int, e: ActiveView) -> Seq<ActiveView> {
    if k < 0 {
        acts.push(e)
    } else {
        acts.update(k, e)
    }
}

/// Marks one syscall as printed.
pub open spec fn apply_print(acts: Seq<ActiveView>, name: Seq<char>) -> Seq<ActiveView> {
    let k = last_active(acts, name);
    let e = active_at(acts, k, name);
    put_active(acts, k, ActiveView { flags: e.flags | SYSCALL_FLAG_PRINT, ..e })
}

/// Marks the first `n` syscalls of a print group.
pub open spec fn print_group(acts: Seq<ActiveView>, names: Seq<Seq<char>>) -> Seq<ActiveView>
    decreases names.len(),
{
    if names.len() == 0 {
        acts
    } else {
        apply_print(print_group(acts, names.drop_last()), names.last())
    }
}

/// Applies the selected print groups in order.
pub open spec fn print_pass(
    acts: Seq<ActiveView>,
    groups: Seq<SyscallGroupView>,
    selected: Seq<Seq<char>>,
) -> Result<Seq<ActiveView>, Fault>
    decreases selected.len(),
{
    if selected.len() == 0 {
        Ok(acts)
    } else {
        match print_pass(acts, groups, selected.drop_last()) {
            Err(f) => Err(f),
            Ok(a) => {
                let k = last_group(groups, selected.last());
                if k < 0 {
                    Err(Fault::UnknownPrintGroup(selected.last()))
                } else {
                    Ok(print_group(a, groups[k].syscalls))
                }
            },
        }
    }
}

/// `o` or, when absent, `d`.
pub open spec fn or_u32(o: Option<u32>, d: u32) -> u32 {
    match o {
        Some(v) => v,
        None => d,
    }
}

/// Marks one syscall as watched by group `g`.
pub open spec fn apply_watch(acts: Seq<ActiveView>, name: Seq<char>, g: SyscallGroupView) -> Result<
    Seq<ActiveView>,
    Fault,
> {
    let k = last_active(acts, name);
    let e = active_at(acts, k, name);
    if e.watch_set && e.watch_param != g.watch_param {
        Err(Fault::ConflictingWatchParams(name))
    } else {
        let wp = if e.watch_param is Some {
            e.watch_param
        } else {
            g.watch_param
        };
        let mask = or_u32(g.watch_flag_mask, 0);
        let e2 = ActiveView {
            flags: e.flags | SYSCALL_FLAG_WATCH,
            watch_param: wp,
            watch_set: true,
            ..e
        };
        if e.fl_param is Some {
            if e.fl_param != g.watch_flag_param || e.fl_mask != mask {
                Err(Fault::ConflictingFlagFilters(name))
            } else {
                Ok(put_active(acts, k, e2))
            }
        } else {
            Ok(put_active(acts, k, ActiveView { fl_param: g.watch_flag_param, fl_mask: mask, ..e2 }))
        }
    }
}

/// Marks the syscalls `names` as watched by group `g`, in order.
pub open spec fn watch_group(
    acts: Seq<ActiveView>,
    g: SyscallGroupView,
    names: Seq<Seq<char>>,
) -> Result<Seq<ActiveView>, Fault>
    decreases names.len(),
{
    if names.len() == 0 {
        Ok(acts)
    } else {
        match watch_group(acts, g, names.drop_last()) {
            Err(f) => Err(f),
            Ok(a) => apply_watch(a, names.last(), g),
        }
    }
}

/// Applies the selected watch groups in order.
pub open spec fn watch_pass(
    acts: Seq<ActiveView>,
    groups: Seq<SyscallGroupView>,
    selected: Seq<Seq<char>>,
) -> Result<Seq<ActiveView>, Fault>
    decreases selected.len(),
{
    if selected.len() == 0 {
        Ok(acts)
    } else {
        match watch_pass(acts, groups, selected.drop_last()) {
            Err(f) => Err(f),
            Ok(a) => {
                let k = first_group(groups, selected.last());
                if k < 0 {
                    Err(Fault::UnknownWatchGroup(selected.last()))
                } else if (groups[k].watch_flag_mask is Some) != (
                groups[k].watch_flag_param is Some) {
                    Err(Fault::UnpairedFlagFilter(selected.last()))
                } else {
                    watch_group(a, groups[k], groups[k].syscalls)
                }
            },
        }
    }
}

/// Index of the first string argument named `name`, or -1.
pub open spec fn first_str_named(args: Seq<ArgDefView>, name: Seq<char>) -> int
    decreases args.len(),
{
    if args.len() == 0 {
        -1
    } else if first_str_named(args.drop_last(), name) >= 0 {
        first_str_named(args.drop_last(), name)
    } else if args.last().name == name && args.last().arg_type == ArgType::Str {
        args.len() - 1
    } else {
        -1
    }
}

/// Index of the first string argument, or -1.
pub open spec fn first_str(args: Seq<ArgDefView>) -> int
    decreases args.len(),
{
    if args.len() == 0 {
        -1
    } else if first_str(args.drop_last()) >= 0 {
        first_str(args.drop_last())
    } else if args.last().arg_type == ArgType::Str {
        args.len() - 1
    } else {
        -1
    }
}

/// Index of the first integer argument named `name`, or -1.
pub open spec fn first_int_named(args: Seq<ArgDefView>, name: Seq<char>) -> int
    decreases args.len(),
{
    if args.len() == 0 {
        -1
    } else if first_int_named(args.drop_last(), name) >= 0 {
        first_int_named(args.drop_last(), name)
    } else if args.last().name == name && args.last().arg_type == ArgType::Int {
        args.len() - 1
    } else {
        -1
    }
}

/// Register of the path argument: the string argument named `param` if
/// there is one, else the first string argument.
pub open spec fn str_register(args: Seq<ArgDefView>, param: Option<Seq<char>>) -> Option<u32> {
    let named = match param {
        Some(p) => first_str_named(args, p),
        None => -1,
    };
    if named >= 0 {
        Some(args[named].reg)
    } else if first_str(args) >= 0 {
        Some(args[first_str(args)].reg)
    } else {
        None
    }
}

/// Register of the integer argument named `name`.
pub open spec fn int_register(args: Seq<ArgDefView>, name: Seq<char>) -> Option<u32> {
    let k = first_int_named(args, name);
    if k >= 0 {
        Some(args[k].reg)
    } else {
        None
    }
}

/// Kernel map entry for one activated syscall on one ABI.
pub open spec fn abi_entry(a: ActiveView, d: SyscallDefView, is64: bool) -> Result<
    Option<(u32, SyscallArgInfo)>,
    Fault,
> {
    let nr = if is64 {
        d.nr.arm64
    } else {
        d.nr.arm32
    };
    let args = if is64 {
        d.arm64
    } else {
        d.arm32
    };
    match nr {
        None => Ok(None),
        Some(n) => match str_register(args, a.watch_param) {
            None => Err(Fault::NoStrParam(a.name, is64)),
            Some(reg) => {
                let fl = match a.fl_param {
                    Some(p) => int_register(args, p),
                    None => Some(0u32),
                };
                match fl {
                    None => Err(Fault::NoIntParam(a.name, is64, a.fl_param->Some_0)),
                    Some(fl_reg) => Ok(
                        Some(
                            (
                                n,
                                SyscallArgInfo {
                                    str_reg_idx: reg,
                                    flags: a.flags,
                                    fl_reg_idx: fl_reg,
                                    fl_mask: a.fl_mask,
                                },
                            ),
                        ),
                    ),
                }
            },
        },
    }
}

/// Appends an optional entry.
pub open spec fn push_opt(s: Seq<(u32, SyscallArgInfo)>, o: Option<(u32, SyscallArgInfo)>) -> Seq<
    (u32, SyscallArgInfo),
> {
    match o {
        Some(e) => s.push(e),
        None => s,
    }
}

/// Map entries for all activated syscalls, 64-bit and 32-bit, in
/// activation order.
pub open spec fn abi_entries(acts: Seq<ActiveView>, defs: Seq<SyscallDefView>) -> Result<
    (Seq<(u32, SyscallArgInfo)>, Seq<(u32, SyscallArgInfo)>),
    Fault,
>
    decreases acts.len(),
{
    if acts.len() == 0 {
        Ok((seq![], seq![]))
    } else {
        match abi_entries(acts.drop_last(), defs) {
            Err(f) => Err(f),
            Ok((l64, l32)) => {
                let a = acts.last();
                let k = last_def(defs, a.name);
                if k < 0 {
                    Err(Fault::UndefinedSyscall(a.name))
                } else {
                    match abi_entry(a, defs[k], true) {
                        Err(f) => Err(f),
                        Ok(e64) => match abi_entry(a, defs[k], false) {
                            Err(f) => Err(f),
                            Ok(e32) => Ok((push_opt(l64, e64), push_opt(l32, e32))),
                        },
                    }
                }
            },
        }
    }
}

/// Byte length of a string's UTF-8 encoding.
pub open spec fn utf8_len(s: Seq<char>) -> nat {
    vstd::utf8::encode_utf8(s).len()
}

/// The watched basenames with duplicates dropped (first occurrence kept).
pub open spec fn basename_pass(names: Seq<Seq<char>>) -> Result<Seq<Seq<char>>, Fault>
    decreases names.len(),
{
    if names.len() == 0 {
        Ok(seq![])
    } else {
        match basename_pass(names.drop_last()) {
            Err(f) => Err(f),
            Ok(r) => {
                let b = names.last();
                if utf8_len(b) == 0 || utf8_len(b) >= WATCH_BASE_MAX {
                    Err(Fault::BadBasename(b))
                } else if r.contains(b) {
                    Ok(r)
                } else {
                    Ok(r.push(b))
                }
            },
        }
    }
}

/// The outcome of validation: entries per ABI (in activation order) and
/// the deduplicated basenames.
pub struct RulesOutcome {
    pub args64: Seq<(u32, SyscallArgInfo)>,
    pub args32: Seq<(u32, SyscallArgInfo)>,
    pub basenames: Seq<Seq<char>>,
}

/// Validation of selected print groups and watch settings against a
/// syscall table and a group table.
pub open spec fn rules_outcome(
    defs: Seq<SyscallDefView>,
    groups: Seq<SyscallGroupView>,
    print_groups: Seq<Seq<char>>,
    watch_groups: Seq<Seq<char>>,
    basenames: Seq<Seq<char>>,
) -> Result<RulesOutcome, Fault> {
    match print_pass(seq![], groups, print_groups) {
        Err(f) => Err(f),
        Ok(a1) => match watch_pass(a1, groups, watch_groups) {
            Err(f) => Err(f),
            Ok(a2) => match abi_entries(a2, defs) {
                Err(f) => Err(f),
                Ok((l64, l32)) => match basename_pass(basenames) {
                    Err(f) => Err(f),
                    Ok(bs) => Ok(RulesOutcome { args64: l64, args32: l32, basenames: bs }),
                },
            },
        },
    }
}

/// Entries ordered by syscall number.
pub open spec fn sorted_by_nr(s: Seq<(u32, SyscallArgInfo)>) -> bool {
    forall|i: int, j: int| 0 <= i <= j < s.len() ==> s[i].0 <= s[j].0
}

/// Where an entry numbered `k` goes in a sorted run: after every entry
/// numbered at most `k`.
pub open spec fn insert_pos(s: Seq<(u32, SyscallArgInfo)>, k: u32) -> int
    decreases s.len(),
{
    if s.len() == 0 {
        0
    } else if s[0].0 > k {
        0
    } else {
        1 + insert_pos(s.drop_first(), k)
    }
}

/// The entries sorted by syscall number, entries with equal numbers kept
/// in their order (a stable sort).
pub open spec fn nr_sorted(v: Seq<(u32, SyscallArgInfo)>) -> Seq<(u32, SyscallArgInfo)>
    decreases v.len(),
{
    if v.len() == 0 {
        seq![]
    } else {
        let s = nr_sorted(v.drop_last());
        s.insert(insert_pos(s, v.last().0), v.last())
    }
}

/// What the insertion point is: every entry before it is numbered at most
/// `k`, the one at it (if any) above `k`.
proof fn lemma_insert_pos_props(s: Seq<(u32, SyscallArgInfo)>, k: u32)
    ensures
        0 <= insert_pos(s, k) <= s.len(),
        forall|j: int| 0 <= j < insert_pos(s, k) ==> s[j].0 <= k,
        insert_pos(s, k) < s.len() ==> s[insert_pos(s, k)].0 > k,
    decreases s.len(),
{
    if s.len() > 0 && s[0].0 <= k {
        let t = s.drop_first();
        lemma_insert_pos_props(t, k);
        assert forall|j: int| 0 <= j < insert_pos(s, k) implies s[j].0 <= k by {
            if j > 0 {
                assert(s[j] == t[j - 1]);
            }
        }
        if insert_pos(s, k) < s.len() {
            assert(s[insert_pos(s, k)] == t[insert_pos(t, k)]);
        }
    }
}

/// The validated entries are ordered by syscall number and are the
/// activated entries, each as often as it was activated.
pub proof fn lemma_nr_sorted(v: Seq<(u32, SyscallArgInfo)>)
    ensures
        sorted_by_nr(nr_sorted(v)),
        nr_sorted(v).to_multiset() == v.to_multiset(),
    decreases v.len(),
{
    broadcast use vstd::seq_lib::to_multiset_insert;

    if v.len() == 0 {
        assert(v =~= Seq::<(u32, SyscallArgInfo)>::empty());
    } else {
        let prev = v.drop_last();
        let x = v.last();
        lemma_nr_sorted(prev);
        let s = nr_sorted(prev);
        let p = insert_pos(s, x.0);
        lemma_insert_pos_props(s, x.0);
        let out = s.insert(p, x);
        vstd::seq_lib::to_multiset_insert(s, p, x);
        assert(v =~= prev.push(x));
        vstd::seq_lib::to_multiset_build(prev, x);
        assert forall|a: int, b: int| 0 <= a <= b < out.len() implies out[a].0 <= out[b].0 by {
            if b < p {
            } else if a > p {
                assert(out[a] == s[a - 1]);
                assert(out[b] == s[b - 1]);
            } else if a == p && b > p {
                assert(out[b] == s[b - 1]);
                assert(s[p].0 > x.0);
            } else if a < p && b > p {
                assert(out[b] == s[b - 1]);
                assert(s[p].0 > x.0);
            }
        }
    }
}

/// The insertion point is the first entry numbered above `k`.
proof fn lemma_insert_pos(s: Seq<(u32, SyscallArgInfo)>, k: u32, p: int)
    requires
        0 <= p <= s.len(),
        forall|j: int| 0 <= j < p ==> s[j].0 <= k,
        p < s.len() ==> s[p].0 > k,
    ensures
        insert_pos(s, k) == p,
    decreases p,
{
    if p > 0 {
        assert(s[0].0 <= k);
        let t = s.drop_first();
        assert forall|j: int| 0 <= j < p - 1 implies t[j].0 <= k by {
            assert(t[j] == s[j + 1]);
        }
        if p - 1 < t.len() {
            assert(t[p - 1] == s[p]);
        }
        lemma_insert_pos(t, k, p - 1);
    }
}


/// The basenames validation accepts are each 1 to 63 bytes long, so each
/// fits a watch-rule key; they hold no duplicates, and every configured
/// basename is among them.
pub proof fn lemma_accepted_basenames(names: Seq<Seq<char>>)
    requires
        basename_pass(names) is Ok,
    ensures
        forall|i: int|
            0 <= i < basename_pass(names)->Ok_0.len() ==> 1 <= #[trigger] utf8_len(
                basename_pass(names)->Ok_0[i],
            ) < WATCH_BASE_MAX,
        forall|i: int, j: int|
            0 <= i < j < basename_pass(names)->Ok_0.len() ==> basename_pass(names)->Ok_0[i]
                != basename_pass(names)->Ok_0[j],
        forall|k: int| 0 <= k < names.len() ==> basename_pass(names)->Ok_0.contains(#[trigger] names[k]),
    decreases names.len(),
{
    if names.len() > 0 {
        let prev = names.drop_last();
        lemma_accepted_basenames(prev);
        let r = basename_pass(prev)->Ok_0;
        let b = names.last();
        assert forall|k: int| 0 <= k < names.len() implies basename_pass(names)->Ok_0.contains(
            #[trigger] names[k],
        ) by {
            if k < names.len() - 1 {
                assert(names[k] == prev[k]);
                assert(r.contains(prev[k]));
                if !r.contains(b) {
                    let w = choose|w: int| 0 <= w < r.len() && r[w] == prev[k];
                    assert(r.push(b)[w] == prev[k]);
                }
            } else {
                if !r.contains(b) {
                    assert(r.push(b)[r.len() as int] == b);
                }
            }
        }
    }
}

/// A basename validation refuses: empty, or too long for a watch-rule key.
pub open spec fn bad_basename(b: Seq<char>) -> bool {
    utf8_len(b) == 0 || utf8_len(b) >= WATCH_BASE_MAX
}

/// Basename validation fails exactly when some configured basename is
/// empty or too long. Otherwise it keeps the first occurrence of each
/// basename in their configured order: every accepted basename is a
/// configured one, and each occurrence of a later accepted basename comes
/// after an occurrence of every earlier one.
#[verifier::spinoff_prover]
pub proof fn lemma_basename_verdict(names: Seq<Seq<char>>)
    ensures
        basename_pass(names) is Err <==> exists|k: int|
            0 <= k < names.len() && #[trigger] bad_basename(names[k]),
        basename_pass(names) is Ok ==> forall|i: int|
            0 <= i < basename_pass(names)->Ok_0.len() ==> names.contains(
                #[trigger] basename_pass(names)->Ok_0[i],
            ),
        basename_pass(names) is Ok ==> forall|i: int, j: int, b: int|
            #![trigger basename_pass(names)->Ok_0[i], basename_pass(names)->Ok_0[j], names[b]]
            0 <= i < j < basename_pass(names)->Ok_0.len() && 0 <= b < names.len() && names[b]
                == basename_pass(names)->Ok_0[j] ==> exists|a: int|
                0 <= a < b && #[trigger] names[a] == basename_pass(names)->Ok_0[i],
    decreases names.len(),
{
    if names.len() > 0 {
        let n = names.len() as int;
        let prev = names.drop_last();
        let x = names.last();
        lemma_basename_verdict(prev);
        assert forall|k: int| 0 <= k < n - 1 implies names[k] == prev[k] by {}
        match basename_pass(prev) {
            Err(_) => {
                let k = choose|k: int| 0 <= k < prev.len() && #[trigger] bad_basename(prev[k]);
                assert(names[k] == prev[k]);
                assert(bad_basename(names[k]));
            },
            Ok(r) => {
                if bad_basename(x) {
                    assert(names[n - 1] == x);
                } else {
                    lemma_accepted_basenames(prev);
                    let out = basename_pass(names)->Ok_0;
                    assert(!exists|k: int| 0 <= k < n && #[trigger] bad_basename(names[k])) by {
                        assert forall|k: int| 0 <= k < n implies !#[trigger] bad_basename(names[k]) by {
                            if k < n - 1 {
                                assert(names[k] == prev[k]);
                                if bad_basename(prev[k]) {
                                    assert(exists|q: int|
                                        0 <= q < prev.len() && #[trigger] bad_basename(prev[q]));
                                }
                            }
                        }
                    }
                    assert forall|i: int| 0 <= i < out.len() implies names.contains(#[trigger] out[i]) by {
                        if i < r.len() {
                            assert(out[i] == r[i]);
                            assert(prev.contains(r[i]));
                            let k = choose|k: int| 0 <= k < prev.len() && prev[k] == r[i];
                            assert(names[k] == r[i]);
                        } else {
                            assert(names[n - 1] == out[i]);
                        }
                    }
                    assert forall|i: int, j: int, b: int|
                        #![trigger out[i], out[j], names[b]]
                        0 <= i < j < out.len() && 0 <= b < names.len() && names[b] == out[j] implies exists|a: int|
                        0 <= a < b && #[trigger] names[a] == out[i] by {
                        assert(out[i] == r[i]);
                        assert(prev.contains(r[i]));
                        let k = choose|k: int| 0 <= k < prev.len() && prev[k] == r[i];
                        assert(names[k] == r[i]);
                        if j < r.len() {
                            assert(out[j] == r[j]);
                            if b < n - 1 {
                                assert(prev[b] == r[j]);
                                let a = choose|a: int| 0 <= a < b && #[trigger] prev[a] == r[i];
                                assert(names[a] == r[i]);
                            }
                        } else {
                            assert(out[j] == x);
                            assert(!r.contains(x));
                            if b < n - 1 {
                                assert(prev[b] == x);
                                assert(r.contains(prev[b]));
                            }
                        }
                    }
                }
            },
        }

    }
}

/// Validation with an empty or too long basename fails, whatever else
/// the configuration says; a validation that succeeds carries the
/// basenames as basename validation leaves them.
pub proof fn lemma_outcome_basenames(
    defs: Seq<SyscallDefView>,
    groups: Seq<SyscallGroupView>,
    print_groups: Seq<Seq<char>>,
    watch_groups: Seq<Seq<char>>,
    names: Seq<Seq<char>>,
)
    ensures
        (exists|k: int| 0 <= k < names.len() && #[trigger] bad_basename(names[k])) ==> rules_outcome(
            defs,
            groups,
            print_groups,
            watch_groups,
            names,
        ) is Err,
        rules_outcome(defs, groups, print_groups, watch_groups, names) matches Ok(o)
            ==> basename_pass(names) == Ok::<Seq<Seq<char>>, Fault>(o.basenames),
{
    lemma_basename_verdict(names);
}

/// No two activated syscalls share a name.
pub open spec fn names_distinct(acts: Seq<ActiveView>) -> bool {
    forall|i: int, j: int| 0 <= i < j < acts.len() ==> #[trigger] acts[i].name != #[trigger] acts[j].name
}

/// No two entries share a syscall number.
pub open spec fn nrs_distinct(s: Seq<(u32, SyscallArgInfo)>) -> bool {
    forall|i: int, j: int| 0 <= i < j < s.len() ==> #[trigger] s[i].0 != #[trigger] s[j].0
}

/// No two definitions share a number on either ABI.
pub open spec fn table_nrs_distinct(defs: Seq<SyscallDefView>) -> bool {
    forall|i: int, j: int|
        0 <= i < j < defs.len() ==> (#[trigger] defs[i].nr.arm64 is Some ==> defs[i].nr.arm64
            != #[trigger] defs[j].nr.arm64) && (defs[i].nr.arm32 is Some ==> defs[i].nr.arm32
            != defs[j].nr.arm32)
}

proof fn lemma_last_active(acts: Seq<ActiveView>, name: Seq<char>)
    ensures
        -1 <= last_active(acts, name) < acts.len(),
        last_active(acts, name) >= 0 ==> acts[last_active(acts, name)].name == name,
        last_active(acts, name) < 0 ==> forall|i: int|
            0 <= i < acts.len() ==> #[trigger] acts[i].name != name,
    decreases acts.len(),
{
    if acts.len() > 0 {
        let p = acts.drop_last();
        lemma_last_active(p, name);
        assert forall|i: int| 0 <= i < acts.len() - 1 implies acts[i] == p[i] by {}
    }
}

proof fn lemma_last_def(defs: Seq<SyscallDefView>, name: Seq<char>)
    ensures
        -1 <= last_def(defs, name) < defs.len(),
        last_def(defs, name) >= 0 ==> defs[last_def(defs, name)].name == name,
    decreases defs.len(),
{
    if defs.len() > 0 {
        lemma_last_def(defs.drop_last(), name);
    }
}

/// Storing an entry for `name` where `last_active` points keeps names
/// distinct.
proof fn lemma_put_named(acts: Seq<ActiveView>, name: Seq<char>, e: ActiveView)
    requires
        names_distinct(acts),
        e.name == name,
    ensures
        names_distinct(put_active(acts, last_active(acts, name), e)),
{
    lemma_last_active(acts, name);
    let k = last_active(acts, name);
    let r = put_active(acts, k, e);
    assert forall|i: int, j: int| 0 <= i < j < r.len() implies #[trigger] r[i].name
        != #[trigger] r[j].name by {
        if k < 0 {
            if j == acts.len() {
                assert(r[i] == acts[i]);
            } else {
                assert(r[i] == acts[i] && r[j] == acts[j]);
            }
        } else {
            if i == k {
                assert(r[j] == acts[j]);
                assert(acts[k].name != acts[j].name);
            } else if j == k {
                assert(r[i] == acts[i]);
                assert(acts[i].name != acts[k].name);
            } else {
                assert(r[i] == acts[i] && r[j] == acts[j]);
            }
        }
    }
}

proof fn lemma_print_group_names(acts: Seq<ActiveView>, names: Seq<Seq<char>>)
    requires
        names_distinct(acts),
    ensures
        names_distinct(print_group(acts, names)),
    decreases names.len(),
{
    if names.len() > 0 {
        let a = print_group(acts, names.drop_last());
        lemma_print_group_names(acts, names.drop_last());
        let n = names.last();
        lemma_last_active(a, n);
        let e = active_at(a, last_active(a, n), n);
        lemma_put_named(a, n, ActiveView { flags: e.flags | SYSCALL_FLAG_PRINT, ..e });
    }
}

proof fn lemma_print_pass_names(
    acts: Seq<ActiveView>,
    groups: Seq<SyscallGroupView>,
    selected: Seq<Seq<char>>,
)
    requires
        names_distinct(acts),
    ensures
        print_pass(acts, groups, selected) matches Ok(r) ==> names_distinct(r),
    decreases selected.len(),
{
    if selected.len() > 0 {
        lemma_print_pass_names(acts, groups, selected.drop_last());
        if let Ok(a) = print_pass(acts, groups, selected.drop_last()) {
            let k = last_group(groups, selected.last());
            if k >= 0 {
                lemma_print_group_names(a, groups[k].syscalls);
            }
        }
    }
}

proof fn lemma_watch_group_names(acts: Seq<ActiveView>, g: SyscallGroupView, names: Seq<Seq<char>>)
    requires
        names_distinct(acts),
    ensures
        watch_group(acts, g, names) matches Ok(r) ==> names_distinct(r),
    decreases names.len(),
{
    if names.len() > 0 {
        lemma_watch_group_names(acts, g, names.drop_last());
        if let Ok(a) = watch_group(acts, g, names.drop_last()) {
            let n = names.last();
            lemma_last_active(a, n);
            let k = last_active(a, n);
            let e = active_at(a, k, n);
            let wp = if e.watch_param is Some {
                e.watch_param
            } else {
                g.watch_param
            };
            let mask = or_u32(g.watch_flag_mask, 0);
            let e2 = ActiveView {
                flags: e.flags | SYSCALL_FLAG_WATCH,
                watch_param: wp,
                watch_set: true,
                ..e
            };
            lemma_put_named(a, n, e2);
            lemma_put_named(a, n, ActiveView { fl_param: g.watch_flag_param, fl_mask: mask, ..e2 });
        }
    }
}

proof fn lemma_watch_pass_names(
    acts: Seq<ActiveView>,
    groups: Seq<SyscallGroupView>,
    selected: Seq<Seq<char>>,
)
    requires
        names_distinct(acts),
    ensures
        watch_pass(acts, groups, selected) matches Ok(r) ==> names_distinct(r),
    decreases selected.len(),
{
    if selected.len() > 0 {
        lemma_watch_pass_names(acts, groups, selected.drop_last());
        if let Ok(a) = watch_pass(acts, groups, selected.drop_last()) {
            let k = first_group(groups, selected.last());
            if k >= 0 {
                lemma_watch_group_names(a, groups[k], groups[k].syscalls);
            }
        }
    }
}

/// The number an entry of one ABI was made from: that of the definition
/// of some activated syscall.
pub open spec fn entry_source(
    acts: Seq<ActiveView>,
    defs: Seq<SyscallDefView>,
    n: u32,
    is64: bool,
    i: int,
) -> bool {
    &&& 0 <= i < acts.len()
    &&& 0 <= last_def(defs, acts[i].name) < defs.len()
    &&& (if is64 {
        defs[last_def(defs, acts[i].name)].nr.arm64
    } else {
        defs[last_def(defs, acts[i].name)].nr.arm32
    }) == Some(n)
}

/// Some activated syscall's definition has number `n` on the ABI.
pub open spec fn has_nr(acts: Seq<ActiveView>, defs: Seq<SyscallDefView>, n: u32, is64: bool) -> bool
    decreases acts.len(),
{
    acts.len() > 0 && (entry_source(acts, defs, n, is64, acts.len() - 1) || has_nr(
        acts.drop_last(),
        defs,
        n,
        is64,
    ))
}

proof fn lemma_has_nr_witness(acts: Seq<ActiveView>, defs: Seq<SyscallDefView>, n: u32, is64: bool) -> (i: int)
    requires
        has_nr(acts, defs, n, is64),
    ensures
        entry_source(acts, defs, n, is64, i),
    decreases acts.len(),
{
    if entry_source(acts, defs, n, is64, acts.len() - 1) {
        acts.len() - 1
    } else {
        let p = acts.drop_last();
        let i = lemma_has_nr_witness(p, defs, n, is64);
        assert(p[i] == acts[i]);
        i
    }
}

proof fn lemma_has_nr_grow(acts: Seq<ActiveView>, defs: Seq<SyscallDefView>, n: u32, is64: bool, i: int)
    requires
        entry_source(acts, defs, n, is64, i),
    ensures
        has_nr(acts, defs, n, is64),
    decreases acts.len(),
{
    if i < acts.len() - 1 {
        let p = acts.drop_last();
        assert(p[i] == acts[i]);
        lemma_has_nr_grow(p, defs, n, is64, i);
    }
}

/// Every entry's number is that of an activated syscall's definition.
pub open spec fn sourced(
    acts: Seq<ActiveView>,
    defs: Seq<SyscallDefView>,
    s: Seq<(u32, SyscallArgInfo)>,
    is64: bool,
) -> bool {
    forall|m: int| 0 <= m < s.len() ==> has_nr(acts, defs, #[trigger] s[m].0, is64)
}

proof fn lemma_entries_distinct(acts: Seq<ActiveView>, defs: Seq<SyscallDefView>)
    requires
        names_distinct(acts),
        table_nrs_distinct(defs),
        abi_entries(acts, defs) is Ok,
    ensures
        nrs_distinct(abi_entries(acts, defs)->Ok_0.0),
        nrs_distinct(abi_entries(acts, defs)->Ok_0.1),
        sourced(acts, defs, abi_entries(acts, defs)->Ok_0.0, true),
        sourced(acts, defs, abi_entries(acts, defs)->Ok_0.1, false),
    decreases acts.len(),
{
    if acts.len() > 0 {
        let p = acts.drop_last();
        let a = acts.last();
        assert forall|i: int, j: int| 0 <= i < j < p.len() implies #[trigger] p[i].name
            != #[trigger] p[j].name by {
            assert(p[i] == acts[i] && p[j] == acts[j]);
        }
        lemma_entries_distinct(p, defs);
        let l64 = abi_entries(p, defs)->Ok_0.0;
        let l32 = abi_entries(p, defs)->Ok_0.1;
        let k = last_def(defs, a.name);
        lemma_last_def(defs, a.name);
        let r64 = abi_entries(acts, defs)->Ok_0.0;
        let r32 = abi_entries(acts, defs)->Ok_0.1;
        // Each earlier entry comes from a syscall other than `a`, so from
        // another definition, whose numbers differ from those of `defs[k]`.
        assert forall|m: int| 0 <= m < l64.len() && defs[k].nr.arm64 is Some implies #[trigger] l64[m].0
            != defs[k].nr.arm64->Some_0 by {
            let i = lemma_has_nr_witness(p, defs, l64[m].0, true);
            let ki = last_def(defs, p[i].name);
            lemma_last_def(defs, p[i].name);
            assert(p[i] == acts[i]);
            assert(acts[i].name != acts[acts.len() - 1].name);
            assert(ki != k);
            if ki < k {
                assert(defs[ki].nr.arm64 is Some ==> defs[ki].nr.arm64 != defs[k].nr.arm64);
            } else {
                assert(defs[k].nr.arm64 is Some ==> defs[k].nr.arm64 != defs[ki].nr.arm64);
            }
        }
        assert forall|m: int| 0 <= m < l32.len() && defs[k].nr.arm32 is Some implies #[trigger] l32[m].0
            != defs[k].nr.arm32->Some_0 by {
            let i = lemma_has_nr_witness(p, defs, l32[m].0, false);
            let ki = last_def(defs, p[i].name);
            lemma_last_def(defs, p[i].name);
            assert(p[i] == acts[i]);
            assert(acts[i].name != acts[acts.len() - 1].name);
            assert(ki != k);
            if ki < k {
                assert(defs[ki].nr.arm32 is Some ==> defs[ki].nr.arm32 != defs[k].nr.arm32);
            } else {
                assert(defs[k].nr.arm32 is Some ==> defs[k].nr.arm32 != defs[ki].nr.arm32);
            }
        }
        assert forall|m: int| 0 <= m < r64.len() implies has_nr(acts, defs, #[trigger] r64[m].0, true) by {
            if m < l64.len() {
                assert(r64[m] == l64[m]);
                let i = lemma_has_nr_witness(p, defs, l64[m].0, true);
                assert(p[i] == acts[i]);
                lemma_has_nr_grow(acts, defs, r64[m].0, true, i);
            } else {
                lemma_has_nr_grow(acts, defs, r64[m].0, true, acts.len() - 1);
            }
        }
        assert forall|m: int| 0 <= m < r32.len() implies has_nr(acts, defs, #[trigger] r32[m].0, false) by {
            if m < l32.len() {
                assert(r32[m] == l32[m]);
                let i = lemma_has_nr_witness(p, defs, l32[m].0, false);
                assert(p[i] == acts[i]);
                lemma_has_nr_grow(acts, defs, r32[m].0, false, i);
            } else {
                lemma_has_nr_grow(acts, defs, r32[m].0, false, acts.len() - 1);
            }
        }
        assert forall|i: int, j: int| 0 <= i < j < r64.len() implies #[trigger] r64[i].0
            != #[trigger] r64[j].0 by {
            if j < l64.len() {
                assert(r64[i] == l64[i] && r64[j] == l64[j]);
            } else {
                assert(r64[i] == l64[i]);
            }
        }
        assert forall|i: int, j: int| 0 <= i < j < r32.len() implies #[trigger] r32[i].0
            != #[trigger] r32[j].0 by {
            if j < l32.len() {
                assert(r32[i] == l32[i] && r32[j] == l32[j]);
            } else {
                assert(r32[i] == l32[i]);
            }
        }

        assert(sourced(acts, defs, r64, true));
        assert(sourced(acts, defs, r32, false));
    } else {
        assert(abi_entries(acts, defs)->Ok_0.0.len() == 0);
        assert(abi_entries(acts, defs)->Ok_0.1.len() == 0);
    }
}

/// Sorting by number keeps numbers distinct.
proof fn lemma_sorted_distinct(v: Seq<(u32, SyscallArgInfo)>)
    requires
        nrs_distinct(v),
    ensures
        nrs_distinct(nr_sorted(v)),
    decreases v.len(),
{
    if v.len() > 0 {
        let prev = v.drop_last();
        let x = v.last();
        assert forall|i: int, j: int| 0 <= i < j < prev.len() implies #[trigger] prev[i].0
            != #[trigger] prev[j].0 by {
            assert(prev[i] == v[i] && prev[j] == v[j]);
        }
        lemma_sorted_distinct(prev);
        lemma_nr_sorted(prev);
        let s = nr_sorted(prev);
        let p = insert_pos(s, x.0);
        lemma_insert_pos_props(s, x.0);
        let out = s.insert(p, x);
        assert forall|q: int| 0 <= q < s.len() implies #[trigger] s[q].0 != x.0 by {
            broadcast use vstd::seq_lib::group_to_multiset_ensures;

            assert(s.contains(s[q]));
            assert(prev.to_multiset().count(s[q]) > 0);
            assert(prev.contains(s[q]));
            let w = choose|w: int| 0 <= w < prev.len() && prev[w] == s[q];
            assert(prev[w] == v[w]);
            assert(v[w].0 != v[v.len() - 1].0);
        }
        assert forall|i: int, j: int| 0 <= i < j < out.len() implies #[trigger] out[i].0
            != #[trigger] out[j].0 by {
            if j < p {
            } else if i > p {
                assert(out[i] == s[i - 1] && out[j] == s[j - 1]);
            } else if i == p {
                assert(out[j] == s[j - 1]);
            } else if j == p {
                assert(out[i] == s[i]);
            } else {
                assert(out[i] == s[i] && out[j] == s[j - 1]);
            }
        }
    }
}

/// With a syscall table whose numbers are distinct on each ABI, the
/// kernel entries of a validation that succeeds are ordered by number and
/// no number occurs twice.
pub proof fn lemma_outcome_nrs(
    defs: Seq<SyscallDefView>,
    groups: Seq<SyscallGroupView>,
    print_groups: Seq<Seq<char>>,
    watch_groups: Seq<Seq<char>>,
    names: Seq<Seq<char>>,
)
    requires
        table_nrs_distinct(defs),
    ensures
        rules_outcome(defs, groups, print_groups, watch_groups, names) matches Ok(o) ==> {
            &&& sorted_by_nr(nr_sorted(o.args64))
            &&& nrs_distinct(nr_sorted(o.args64))
            &&& sorted_by_nr(nr_sorted(o.args32))
            &&& nrs_distinct(nr_sorted(o.args32))
        },
{
    if let Ok(o) = rules_outcome(defs, groups, print_groups, watch_groups, names) {
        let a0 = Seq::<ActiveView>::empty();
        lemma_print_pass_names(a0, groups, print_groups);
        let a1 = print_pass(a0, groups, print_groups)->Ok_0;
        lemma_watch_pass_names(a1, groups, watch_groups);
        let a2 = watch_pass(a1, groups, watch_groups)->Ok_0;
        lemma_entries_distinct(a2, defs);
        lemma_nr_sorted(o.args64);
        lemma_nr_sorted(o.args32);
        lemma_sorted_distinct(o.args64);
        lemma_sorted_distinct(o.args32);
    }
}

/// The syscalls of the groups in `selected`, each group found as
/// `last_group` finds it.
pub open spec fn in_last_groups(groups: Seq<SyscallGroupView>, selected: Seq<Seq<char>>, n: Seq<char>) -> bool
    decreases selected.len(),
{
    selected.len() > 0 && (in_last_groups(groups, selected.drop_last(), n) || (0 <= last_group(
        groups,
        selected.last(),
    ) < groups.len() && groups[last_group(groups, selected.last())].syscalls.contains(n)))
}

/// The syscalls of the groups in `selected`, each group found as
/// `first_group` finds it.
pub open spec fn in_first_groups(groups: Seq<SyscallGroupView>, selected: Seq<Seq<char>>, n: Seq<char>) -> bool
    decreases selected.len(),
{
    selected.len() > 0 && (in_first_groups(groups, selected.drop_last(), n) || (0 <= first_group(
        groups,
        selected.last(),
    ) < groups.len() && groups[first_group(groups, selected.last())].syscalls.contains(n)))
}

/// The flags of a syscall that is printed (`p`) and/or watched (`w`).
pub open spec fn flags_for(p: bool, w: bool) -> u32 {
    (if p {
        SYSCALL_FLAG_PRINT
    } else {
        0u32
    }) | (if w {
        SYSCALL_FLAG_WATCH
    } else {
        0u32
    })
}

/// Each activated syscall carries the flags its membership gives it.
pub open spec fn flags_ok(acts: Seq<ActiveView>, p: Set<Seq<char>>, w: Set<Seq<char>>) -> bool {
    forall|i: int|
        0 <= i < acts.len() ==> #[trigger] acts[i].flags == flags_for(
            p.contains(acts[i].name),
            w.contains(acts[i].name),
        )
}

/// The activated syscalls are exactly those printed or watched.
pub open spec fn members_ok(acts: Seq<ActiveView>, p: Set<Seq<char>>, w: Set<Seq<char>>) -> bool {
    forall|n: Seq<char>| #[trigger] last_active(acts, n) >= 0 <==> p.contains(n) || w.contains(n)
}

proof fn lemma_flag_bits(f: u32, p: bool, w: bool)
    requires
        f == flags_for(p, w),
    ensures
        f | SYSCALL_FLAG_PRINT == flags_for(true, w),
        f | SYSCALL_FLAG_WATCH == flags_for(p, true),
        flags_for(false, false) == 0,
{
    let pb: u32 = if p { 2 } else { 0 };
    let wb: u32 = if w { 4 } else { 0 };
    assert(((pb | wb) | 2u32) == (2u32 | wb) && ((pb | wb) | 4u32) == (pb | 4u32)) by (bit_vector)
        requires
            pb == 0 || pb == 2,
            wb == 0 || wb == 4,
    ;
    assert((0u32 | 0u32) == 0u32) by (bit_vector);
}

/// Storing an entry for `x` that carries the flags of its new membership
/// keeps every syscall's flags and the set of activated syscalls in step.
proof fn lemma_put_flags(
    acts: Seq<ActiveView>,
    x: Seq<char>,
    e: ActiveView,
    p: Set<Seq<char>>,
    w: Set<Seq<char>>,
    p2: Set<Seq<char>>,
    w2: Set<Seq<char>>,
)
    requires
        names_distinct(acts),
        flags_ok(acts, p, w),
        members_ok(acts, p, w),
        e.name == x,
        e.flags == flags_for(p2.contains(x), w2.contains(x)),
        p2.contains(x) || w2.contains(x),
        forall|n: Seq<char>| n != x ==> #[trigger] p2.contains(n) == p.contains(n),
        forall|n: Seq<char>| n != x ==> #[trigger] w2.contains(n) == w.contains(n),
    ensures
        names_distinct(put_active(acts, last_active(acts, x), e)),
        flags_ok(put_active(acts, last_active(acts, x), e), p2, w2),
        members_ok(put_active(acts, last_active(acts, x), e), p2, w2),
{
    lemma_put_named(acts, x, e);
    lemma_last_active(acts, x);
    let k = last_active(acts, x);
    let r = put_active(acts, k, e);
    assert forall|i: int| 0 <= i < r.len() implies #[trigger] r[i].flags == flags_for(
        p2.contains(r[i].name),
        w2.contains(r[i].name),
    ) by {
        if (k < 0 && i == acts.len()) || i == k {
            assert(r[i] == e);
        } else {
            assert(r[i] == acts[i]);
            assert(acts[i].flags == flags_for(p.contains(acts[i].name), w.contains(acts[i].name)));
            assert(p2.contains(acts[i].name) == p.contains(acts[i].name) || acts[i].name == x);
            if acts[i].name == x {
                assert(k >= 0 && acts[k].name == x);
                if i < k {
                    assert(acts[i].name != acts[k].name);
                } else {
                    assert(acts[k].name != acts[i].name);
                }
            }
        }
    }
    assert forall|n: Seq<char>| #[trigger] last_active(r, n) >= 0 <==> p2.contains(n) || w2.contains(n) by {
        lemma_last_active(r, n);
        lemma_last_active(acts, n);
        if n == x {
            if k < 0 {
                assert(r[acts.len() as int].name == x);
            } else {
                assert(r[k].name == x);
            }
        } else {
            if last_active(acts, n) >= 0 {
                let j = last_active(acts, n);
                if k >= 0 {
                    assert(j != k);
                }
                assert(r[j] == acts[j]);
            }
            if last_active(r, n) >= 0 {
                let j = last_active(r, n);
                if (k < 0 && j == acts.len()) || j == k {
                    assert(r[j].name == x);
                } else {
                    assert(r[j] == acts[j]);
                }
            }
        }
    }
}


proof fn lemma_print_group_flags(
    acts: Seq<ActiveView>,
    names: Seq<Seq<char>>,
    p: Set<Seq<char>>,
    w: Set<Seq<char>>,
)
    requires
        names_distinct(acts),
        flags_ok(acts, p, w),
        members_ok(acts, p, w),
    ensures
        names_distinct(print_group(acts, names)),
        flags_ok(print_group(acts, names), p + names.to_set(), w),
        members_ok(print_group(acts, names), p + names.to_set(), w),
    decreases names.len(),
{
    if names.len() == 0 {
        assert(p + names.to_set() =~= p);
    } else {
        let prev = names.drop_last();
        let x = names.last();
        lemma_print_group_flags(acts, prev, p, w);
        let a = print_group(acts, prev);
        let p1 = p + prev.to_set();
        let p2 = p + names.to_set();
        assert(p2 =~= p1.insert(x)) by {
            assert forall|n: Seq<char>| names.contains(n) <==> prev.contains(n) || n == x by {
                if names.contains(n) {
                    let j = choose|j: int| 0 <= j < names.len() && names[j] == n;
                    if j < prev.len() {
                        assert(prev[j] == n);
                    }
                }
                if prev.contains(n) {
                    let j = choose|j: int| 0 <= j < prev.len() && prev[j] == n;
                    assert(names[j] == n);
                }
                if n == x {
                    assert(names[names.len() - 1] == x);
                }
            }
        }
        lemma_last_active(a, x);
        let k = last_active(a, x);
        let e = active_at(a, k, x);
        if k >= 0 {
            assert(e.flags == flags_for(p1.contains(x), w.contains(x)));
        } else {
            assert(!p1.contains(x) && !w.contains(x));
            assert((0u32 | 0u32) == 0u32) by (bit_vector);
        }
        lemma_flag_bits(e.flags, p1.contains(x), w.contains(x));
        lemma_put_flags(a, x, ActiveView { flags: e.flags | SYSCALL_FLAG_PRINT, ..e }, p1, w, p2, w);
    }
}

proof fn lemma_print_pass_flags(groups: Seq<SyscallGroupView>, selected: Seq<Seq<char>>)
    ensures
        print_pass(seq![], groups, selected) matches Ok(a) ==> {
            &&& names_distinct(a)
            &&& flags_ok(a, Set::new(|n: Seq<char>| in_last_groups(groups, selected, n)), Set::empty())
            &&& members_ok(a, Set::new(|n: Seq<char>| in_last_groups(groups, selected, n)), Set::empty())
        },
    decreases selected.len(),
{
    let pset = Set::new(|n: Seq<char>| in_last_groups(groups, selected, n));
    if selected.len() == 0 {
        let a = Seq::<ActiveView>::empty();
        assert(pset =~= Set::empty());
        assert forall|n: Seq<char>| #[trigger] last_active(a, n) >= 0 <==> pset.contains(n) || Set::<Seq<char>>::empty().contains(n) by {}
    } else {
        let prev = selected.drop_last();
        lemma_print_pass_flags(groups, prev);
        if let Ok(a) = print_pass(seq![], groups, prev) {
            let k = last_group(groups, selected.last());
            lemma_last_group(groups, selected.last());
            if k >= 0 {
                let p1 = Set::new(|n: Seq<char>| in_last_groups(groups, prev, n));
                lemma_print_group_flags(a, groups[k].syscalls, p1, Set::empty());
                assert(pset =~= p1 + groups[k].syscalls.to_set());
            }
        }
    }
}

proof fn lemma_seq_set_push(names: Seq<Seq<char>>)
    requires
        names.len() > 0,
    ensures
        names.to_set() =~= names.drop_last().to_set().insert(names.last()),
{
    let prev = names.drop_last();
    let x = names.last();
    assert forall|n: Seq<char>| names.contains(n) <==> prev.contains(n) || n == x by {
        if names.contains(n) {
            let j = choose|j: int| 0 <= j < names.len() && names[j] == n;
            if j < prev.len() {
                assert(prev[j] == n);
            }
        }
        if prev.contains(n) {
            let j = choose|j: int| 0 <= j < prev.len() && prev[j] == n;
            assert(names[j] == n);
        }
        if n == x {
            assert(names[names.len() - 1] == x);
        }
    }
}

proof fn lemma_watch_group_flags(
    acts: Seq<ActiveView>,
    g: SyscallGroupView,
    names: Seq<Seq<char>>,
    p: Set<Seq<char>>,
    w: Set<Seq<char>>,
)
    requires
        names_distinct(acts),
        flags_ok(acts, p, w),
        members_ok(acts, p, w),
    ensures
        watch_group(acts, g, names) matches Ok(r) ==> {
            &&& names_distinct(r)
            &&& flags_ok(r, p, w + names.to_set())
            &&& members_ok(r, p, w + names.to_set())
        },
    decreases names.len(),
{
    if names.len() == 0 {
        assert(w + names.to_set() =~= w);
    } else {
        let prev = names.drop_last();
        let x = names.last();
        lemma_watch_group_flags(acts, g, prev, p, w);
        if let Ok(a) = watch_group(acts, g, prev) {
            let w1 = w + prev.to_set();
            let w2 = w + names.to_set();
            lemma_seq_set_push(names);
            assert(w2 =~= w1.insert(x));
            lemma_last_active(a, x);
            let k = last_active(a, x);
            let e = active_at(a, k, x);
            if k >= 0 {
                assert(e.flags == flags_for(p.contains(x), w1.contains(x)));
            } else {
                assert(!p.contains(x) && !w1.contains(x));
                assert((0u32 | 0u32) == 0u32) by (bit_vector);
            }
            lemma_flag_bits(e.flags, p.contains(x), w1.contains(x));
            let wp = if e.watch_param is Some {
                e.watch_param
            } else {
                g.watch_param
            };
            let mask = or_u32(g.watch_flag_mask, 0);
            let e2 = ActiveView {
                flags: e.flags | SYSCALL_FLAG_WATCH,
                watch_param: wp,
                watch_set: true,
                ..e
            };
            lemma_put_flags(a, x, e2, p, w1, p, w2);
            lemma_put_flags(
                a,
                x,
                ActiveView { fl_param: g.watch_flag_param, fl_mask: mask, ..e2 },
                p,
                w1,
                p,
                w2,
            );
        }
    }
}

proof fn lemma_watch_pass_flags(
    acts: Seq<ActiveView>,
    groups: Seq<SyscallGroupView>,
    selected: Seq<Seq<char>>,
    p: Set<Seq<char>>,
)
    requires
        names_distinct(acts),
        flags_ok(acts, p, Set::empty()),
        members_ok(acts, p, Set::empty()),
    ensures
        watch_pass(acts, groups, selected) matches Ok(a) ==> {
            &&& names_distinct(a)
            &&& flags_ok(a, p, Set::new(|n: Seq<char>| in_first_groups(groups, selected, n)))
            &&& members_ok(a, p, Set::new(|n: Seq<char>| in_first_groups(groups, selected, n)))
        },
    decreases selected.len(),
{
    let wset = Set::new(|n: Seq<char>| in_first_groups(groups, selected, n));
    if selected.len() == 0 {
        assert(wset =~= Set::empty());
    } else {
        let prev = selected.drop_last();
        lemma_watch_pass_flags(acts, groups, prev, p);
        if let Ok(a) = watch_pass(acts, groups, prev) {
            let k = first_group(groups, selected.last());
            lemma_first_group(groups, selected.last());
            if k >= 0 {
                let w1 = Set::new(|n: Seq<char>| in_first_groups(groups, prev, n));
                lemma_watch_group_flags(a, groups[k], groups[k].syscalls, p, w1);
                assert(wset =~= w1 + groups[k].syscalls.to_set());
            }
        }
    }
}

/// The syscalls that validation activates are exactly those of the
/// selected print groups and watch groups, no syscall twice, and each
/// carries the print flag when a print group lists it and the watch flag
/// when a watch group does.
pub proof fn lemma_activation(
    groups: Seq<SyscallGroupView>,
    print_groups: Seq<Seq<char>>,
    watch_groups: Seq<Seq<char>>,
)
    ensures
        print_pass(seq![], groups, print_groups) matches Ok(a1) ==> (watch_pass(
            a1,
            groups,
            watch_groups,
        ) matches Ok(a2) ==> {
            &&& names_distinct(a2)
            &&& forall|n: Seq<char>|
                #[trigger] last_active(a2, n) >= 0 <==> in_last_groups(groups, print_groups, n)
                    || in_first_groups(groups, watch_groups, n)
            &&& forall|i: int|
                0 <= i < a2.len() ==> #[trigger] a2[i].flags == flags_for(
                    in_last_groups(groups, print_groups, a2[i].name),
                    in_first_groups(groups, watch_groups, a2[i].name),
                )
        }),
{
    lemma_print_pass_flags(groups, print_groups);
    if let Ok(a1) = print_pass(seq![], groups, print_groups) {
        let pset = Set::new(|n: Seq<char>| in_last_groups(groups, print_groups, n));
        lemma_watch_pass_flags(a1, groups, watch_groups, pset);
    }
}

/// The number on one ABI of the definition of an activated syscall.
pub open spec fn def_nr(acts: Seq<ActiveView>, defs: Seq<SyscallDefView>, i: int, is64: bool) -> Option<u32> {
    if is64 {
        defs[last_def(defs, acts[i].name)].nr.arm64
    } else {
        defs[last_def(defs, acts[i].name)].nr.arm32
    }
}

/// The entry one ABI gets for activated syscall `i`.
pub open spec fn entry_of(acts: Seq<ActiveView>, defs: Seq<SyscallDefView>, i: int, is64: bool) -> Result<
    Option<(u32, SyscallArgInfo)>,
    Fault,
> {
    abi_entry(acts[i], defs[last_def(defs, acts[i].name)], is64)
}

/// Some activated syscall before `upto` is defined and gets entry `e`.
spec fn made_info(acts: Seq<ActiveView>, defs: Seq<SyscallDefView>, e: (u32, SyscallArgInfo), is64: bool, upto: int) -> bool
    decreases upto,
{
    upto > 0 && ((entry_of(acts, defs, upto - 1, is64) == Ok::<Option<(u32, SyscallArgInfo)>, Fault>(Some(e))
        && 0 <= last_def(defs, acts[upto - 1].name)) || made_info(acts, defs, e, is64, upto - 1))
}

proof fn lemma_made_info_witness(
    acts: Seq<ActiveView>,
    defs: Seq<SyscallDefView>,
    e: (u32, SyscallArgInfo),
    is64: bool,
    upto: int,
) -> (i: int)
    requires
        made_info(acts, defs, e, is64, upto),
    ensures
        0 <= i < upto,
        entry_of(acts, defs, i, is64) == Ok::<Option<(u32, SyscallArgInfo)>, Fault>(Some(e)),
        0 <= last_def(defs, acts[i].name),
    decreases upto,
{
    if entry_of(acts, defs, upto - 1, is64) == Ok::<Option<(u32, SyscallArgInfo)>, Fault>(Some(e))
        && 0 <= last_def(defs, acts[upto - 1].name) {
        upto - 1
    } else {
        lemma_made_info_witness(acts, defs, e, is64, upto - 1)
    }
}

proof fn lemma_made_info_grow(
    acts: Seq<ActiveView>,
    defs: Seq<SyscallDefView>,
    e: (u32, SyscallArgInfo),
    is64: bool,
    upto: int,
    i: int,
)
    requires
        0 <= i < upto,
        entry_of(acts, defs, i, is64) == Ok::<Option<(u32, SyscallArgInfo)>, Fault>(Some(e)),
        0 <= last_def(defs, acts[i].name),
    ensures
        made_info(acts, defs, e, is64, upto),
    decreases upto,
{
    if i < upto - 1 {
        lemma_made_info_grow(acts, defs, e, is64, upto - 1, i);
    }
}

/// The entries of one ABI.
pub open spec fn abi_list(acts: Seq<ActiveView>, defs: Seq<SyscallDefView>, is64: bool) -> Seq<
    (u32, SyscallArgInfo),
> {
    if is64 {
        abi_entries(acts, defs)->Ok_0.0
    } else {
        abi_entries(acts, defs)->Ok_0.1
    }
}

/// Each entry is the one an activated syscall gets, and each activated
/// syscall numbered on the ABI has its entry.
proof fn lemma_entries_made(acts: Seq<ActiveView>, defs: Seq<SyscallDefView>, is64: bool)
    requires
        abi_entries(acts, defs) is Ok,
    ensures
        forall|m: int|
            0 <= m < abi_list(acts, defs, is64).len() ==> made_info(
                acts,
                defs,
                #[trigger] abi_list(acts, defs, is64)[m],
                is64,
                acts.len() as int,
            ),
        forall|i: int|
            0 <= i < acts.len() && #[trigger] def_nr(acts, defs, i, is64) is Some ==> 0 <= last_def(defs, acts[i].name)
                && exists|m: int|
                0 <= m < abi_list(acts, defs, is64).len() && entry_of(acts, defs, i, is64) == Ok::<
                    Option<(u32, SyscallArgInfo)>,
                    Fault,
                >(Some(#[trigger] abi_list(acts, defs, is64)[m])),
    decreases acts.len(),
{
    let l = abi_list(acts, defs, is64);
    if acts.len() > 0 {
        let p = acts.drop_last();
        let a = acts.last();
        let z = acts.len() - 1;
        lemma_entries_made(p, defs, is64);
        let lp = abi_list(p, defs, is64);
        lemma_last_def(defs, a.name);
        assert forall|i: int| 0 <= i < p.len() implies #[trigger] def_nr(p, defs, i, is64) == def_nr(
            acts,
            defs,
            i,
            is64,
        ) && p[i] == acts[i] && entry_of(p, defs, i, is64) == entry_of(acts, defs, i, is64) by {}
        assert(l.len() >= lp.len());
        assert forall|m: int| 0 <= m < lp.len() implies l[m] == lp[m] by {}
        assert forall|m: int| 0 <= m < l.len() implies made_info(
            acts,
            defs,
            #[trigger] l[m],
            is64,
            acts.len() as int,
        ) by {
            if m < lp.len() {
                assert(lp[m] == abi_list(p, defs, is64)[m]);
                let i = lemma_made_info_witness(p, defs, lp[m], is64, p.len() as int);
                lemma_made_info_grow(acts, defs, l[m], is64, acts.len() as int, i);
            } else {
                lemma_made_info_grow(acts, defs, l[m], is64, acts.len() as int, z);
            }
        }
        assert forall|i: int|
            0 <= i < acts.len() && #[trigger] def_nr(acts, defs, i, is64) is Some implies 0 <= last_def(defs, acts[i].name)
                && exists|m: int|
            0 <= m < l.len() && entry_of(acts, defs, i, is64) == Ok::<Option<(u32, SyscallArgInfo)>, Fault>(
                Some(#[trigger] abi_list(acts, defs, is64)[m]),
            ) by {
            if i < p.len() {
                assert(def_nr(p, defs, i, is64) is Some);
                let m = choose|m: int|
                    0 <= m < lp.len() && entry_of(p, defs, i, is64) == Ok::<Option<(u32, SyscallArgInfo)>, Fault>(
                        Some(#[trigger] abi_list(p, defs, is64)[m]),
                    );
                assert(l[m] == lp[m]);
            } else {
                assert(entry_of(acts, defs, i, is64) == Ok::<Option<(u32, SyscallArgInfo)>, Fault>(
                    Some(l[lp.len() as int]),
                ));
            }
        }
    }
}

/// The number on one ABI of the syscall `s` as its last definition gives
/// it; none when `s` is not defined.
pub open spec fn syscall_nr(defs: Seq<SyscallDefView>, s: Seq<char>, is64: bool) -> Option<u32> {
    if 0 <= last_def(defs, s) < defs.len() {
        if is64 {
            defs[last_def(defs, s)].nr.arm64
        } else {
            defs[last_def(defs, s)].nr.arm32
        }
    } else {
        None
    }
}

/// A syscall that a selected print group or watch group lists.
pub open spec fn is_selected(
    groups: Seq<SyscallGroupView>,
    print_groups: Seq<Seq<char>>,
    watch_groups: Seq<Seq<char>>,
    s: Seq<char>,
) -> bool {
    in_last_groups(groups, print_groups, s) || in_first_groups(groups, watch_groups, s)
}

/// The flags a selected syscall gets: print when a print group lists it,
/// watch when a watch group does.
pub open spec fn selected_flags(
    groups: Seq<SyscallGroupView>,
    print_groups: Seq<Seq<char>>,
    watch_groups: Seq<Seq<char>>,
    s: Seq<char>,
) -> u32 {
    flags_for(in_last_groups(groups, print_groups, s), in_first_groups(groups, watch_groups, s))
}

/// The arguments of syscall `s` on one ABI, as its last definition gives
/// them.
pub open spec fn syscall_args(defs: Seq<SyscallDefView>, s: Seq<char>, is64: bool) -> Seq<ArgDefView> {
    if is64 {
        defs[last_def(defs, s)].arm64
    } else {
        defs[last_def(defs, s)].arm32
    }
}

/// What the kernel is told of a selected syscall on one ABI: the register
/// of its path argument (the string argument its watch groups name, else
/// the first string argument), its flags, the register of the integer
/// argument its flag filter names (0 without a filter) and the filter's
/// mask.
pub open spec fn syscall_info(
    defs: Seq<SyscallDefView>,
    groups: Seq<SyscallGroupView>,
    print_groups: Seq<Seq<char>>,
    watch_groups: Seq<Seq<char>>,
    s: Seq<char>,
    is64: bool,
) -> SyscallArgInfo {
    let ws = watch_state(groups, watch_groups, s);
    let args = syscall_args(defs, s, is64);
    SyscallArgInfo {
        str_reg_idx: str_register(args, ws.wp)->Some_0,
        flags: selected_flags(groups, print_groups, watch_groups, s),
        fl_reg_idx: match ws.fp {
            Some(p) => int_register(args, p)->Some_0,
            None => 0,
        },
        fl_mask: ws.mask,
    }
}

/// Entry `m` is the number and settings of a selected syscall.
pub open spec fn entry_selected(
    entries: Seq<(u32, SyscallArgInfo)>,
    m: int,
    defs: Seq<SyscallDefView>,
    groups: Seq<SyscallGroupView>,
    print_groups: Seq<Seq<char>>,
    watch_groups: Seq<Seq<char>>,
    is64: bool,
) -> bool {
    exists|s: Seq<char>|
        #[trigger] is_selected(groups, print_groups, watch_groups, s) && syscall_nr(defs, s, is64)
            == Some(entries[m].0) && entries[m].1 == syscall_info(
            defs,
            groups,
            print_groups,
            watch_groups,
            s,
            is64,
        )
}

/// The registers the syscall `s` needs are found, and some entry holds
/// its number and settings.
pub open spec fn selected_entered(
    entries: Seq<(u32, SyscallArgInfo)>,
    s: Seq<char>,
    defs: Seq<SyscallDefView>,
    groups: Seq<SyscallGroupView>,
    print_groups: Seq<Seq<char>>,
    watch_groups: Seq<Seq<char>>,
    is64: bool,
) -> bool {
    &&& str_register(syscall_args(defs, s, is64), watch_state(groups, watch_groups, s).wp) is Some
    &&& (watch_state(groups, watch_groups, s).fp matches Some(p) ==> int_register(
        syscall_args(defs, s, is64),
        p,
    ) is Some)
    &&& exists|m: int|
        0 <= m < entries.len() && Some(#[trigger] entries[m].0) == syscall_nr(defs, s, is64)
            && entries[m].1 == syscall_info(defs, groups, print_groups, watch_groups, s, is64)
}

/// The entries of one ABI are those of the selected syscalls numbered on
/// it: each entry is the number and settings of a selected syscall, and
/// each selected syscall numbered on the ABI has an entry with its number
/// and settings.
pub open spec fn entries_match(
    entries: Seq<(u32, SyscallArgInfo)>,
    defs: Seq<SyscallDefView>,
    groups: Seq<SyscallGroupView>,
    print_groups: Seq<Seq<char>>,
    watch_groups: Seq<Seq<char>>,
    is64: bool,
) -> bool {
    &&& forall|m: int|
        0 <= m < entries.len() ==> #[trigger] entry_selected(
            entries,
            m,
            defs,
            groups,
            print_groups,
            watch_groups,
            is64,
        )
    &&& forall|s: Seq<char>|
        #[trigger] is_selected(groups, print_groups, watch_groups, s) && syscall_nr(defs, s, is64)
            is Some ==> selected_entered(entries, s, defs, groups, print_groups, watch_groups, is64)
}

proof fn lemma_abi_match(
    a2: Seq<ActiveView>,
    defs: Seq<SyscallDefView>,
    groups: Seq<SyscallGroupView>,
    print_groups: Seq<Seq<char>>,
    watch_groups: Seq<Seq<char>>,
    is64: bool,
)
    requires
        abi_entries(a2, defs) is Ok,
        forall|n: Seq<char>|
            #[trigger] last_active(a2, n) >= 0 <==> in_last_groups(groups, print_groups, n)
                || in_first_groups(groups, watch_groups, n),
        forall|i: int|
            0 <= i < a2.len() ==> #[trigger] a2[i].flags == flags_for(
                in_last_groups(groups, print_groups, a2[i].name),
                in_first_groups(groups, watch_groups, a2[i].name),
            ),
        forall|i: int|
            0 <= i < a2.len() ==> #[trigger] state_of(a2[i]) == watch_state(groups, watch_groups, a2[i].name),
    ensures
        entries_match(nr_sorted(abi_list(a2, defs, is64)), defs, groups, print_groups, watch_groups, is64),
{
    broadcast use vstd::seq_lib::group_to_multiset_ensures;

    let l = abi_list(a2, defs, is64);
    let srt = nr_sorted(l);
    lemma_nr_sorted(l);
    lemma_entries_made(a2, defs, is64);
    assert forall|m: int| 0 <= m < srt.len() implies #[trigger] entry_selected(
        srt,
        m,
        defs,
        groups,
        print_groups,
        watch_groups,
        is64,
    ) by {
        let e = srt[m];
        assert(srt.contains(e));
        assert(l.to_multiset().count(e) > 0);
        assert(l.contains(e));
        let q = choose|q: int| 0 <= q < l.len() && l[q] == e;
        assert(made_info(a2, defs, l[q], is64, a2.len() as int));
        let i = lemma_made_info_witness(a2, defs, e, is64, a2.len() as int);
        let nm = a2[i].name;
        lemma_last_active(a2, nm);
        lemma_last_def(defs, nm);
        assert(state_of(a2[i]) == watch_state(groups, watch_groups, nm));
        assert(a2[i].flags == selected_flags(groups, print_groups, watch_groups, nm));
        assert(is_selected(groups, print_groups, watch_groups, nm));
        assert(syscall_nr(defs, nm, is64) == Some(e.0));
        assert(e.1 == syscall_info(defs, groups, print_groups, watch_groups, nm, is64));
    }
    assert forall|s: Seq<char>|
        #[trigger] is_selected(groups, print_groups, watch_groups, s) && syscall_nr(defs, s, is64)
            is Some implies selected_entered(srt, s, defs, groups, print_groups, watch_groups, is64) by {
        lemma_last_active(a2, s);
        let i = last_active(a2, s);
        assert(last_active(a2, s) >= 0);
        assert(a2[i].name == s);
        assert(def_nr(a2, defs, i, is64) is Some);
        assert(state_of(a2[i]) == watch_state(groups, watch_groups, s));
        assert(a2[i].flags == selected_flags(groups, print_groups, watch_groups, s));
        let q = choose|q: int|
            0 <= q < l.len() && entry_of(a2, defs, i, is64) == Ok::<Option<(u32, SyscallArgInfo)>, Fault>(
                Some(#[trigger] abi_list(a2, defs, is64)[q]),
            );
        let e = l[q];
        assert(e.1 == syscall_info(defs, groups, print_groups, watch_groups, s, is64));
        assert(l.contains(e));
        assert(srt.to_multiset().count(e) > 0);
        assert(srt.contains(e));
        let m = choose|m: int| 0 <= m < srt.len() && srt[m] == e;
        assert(Some(srt[m].0) == syscall_nr(defs, s, is64));
    }
}

/// The kernel entries of a validation that succeeds are exactly those of
/// the syscalls the selected print and watch groups list, numbered on
/// each ABI by their definitions. Each is flagged print when a print
/// group lists it and watch when a watch group does; its path register is
/// that of the string argument its watch groups name (else the first
/// string argument), its flag register that of the integer argument the
/// first watch group with a flag filter names (0 without one), and its
/// mask that filter's.
pub proof fn lemma_outcome_entries(
    defs: Seq<SyscallDefView>,
    groups: Seq<SyscallGroupView>,
    print_groups: Seq<Seq<char>>,
    watch_groups: Seq<Seq<char>>,
    names: Seq<Seq<char>>,
)
    ensures
        rules_outcome(defs, groups, print_groups, watch_groups, names) matches Ok(o) ==> {
            &&& entries_match(nr_sorted(o.args64), defs, groups, print_groups, watch_groups, true)
            &&& entries_match(nr_sorted(o.args32), defs, groups, print_groups, watch_groups, false)
        },
{
    if let Ok(o) = rules_outcome(defs, groups, print_groups, watch_groups, names) {
        lemma_activation(groups, print_groups, watch_groups);
        lemma_print_pass_state(groups, print_groups);
        lemma_print_pass_names(seq![], groups, print_groups);
        let a1 = print_pass(seq![], groups, print_groups)->Ok_0;
        lemma_watch_pass_state(a1, groups, watch_groups);
        let a2 = watch_pass(a1, groups, watch_groups)->Ok_0;
        lemma_abi_match(a2, defs, groups, print_groups, watch_groups, true);
        lemma_abi_match(a2, defs, groups, print_groups, watch_groups, false);
    }
}

/// What the watch groups applied so far set on one syscall: the name of
/// its path parameter, its flag parameter and mask, and whether a watch
/// group listed it.
pub struct WatchState {
    pub wp: Option<Seq<char>>,
    pub fp: Option<Seq<char>>,
    pub mask: u32,
    pub set: bool,
}

/// The watch settings an activated syscall carries.
pub open spec fn state_of(a: ActiveView) -> WatchState {
    WatchState { wp: a.watch_param, fp: a.fl_param, mask: a.fl_mask, set: a.watch_set }
}

/// One more watch group listing the syscall: the path parameter and the
/// flag filter are kept once set, else taken from the group.
pub open spec fn watch_step(st: WatchState, g: SyscallGroupView) -> WatchState {
    WatchState {
        wp: if st.wp is Some {
            st.wp
        } else {
            g.watch_param
        },
        fp: if st.fp is Some {
            st.fp
        } else {
            g.watch_flag_param
        },
        mask: if st.fp is Some {
            st.mask
        } else {
            or_u32(g.watch_flag_mask, 0)
        },
        set: true,
    }
}

/// The watch settings of `s` after the selected watch groups, each found
/// as `first_group` finds it, in order.
pub open spec fn watch_state(groups: Seq<SyscallGroupView>, selected: Seq<Seq<char>>, s: Seq<char>) -> WatchState
    decreases selected.len(),
{
    if selected.len() == 0 {
        WatchState { wp: None, fp: None, mask: 0, set: false }
    } else {
        let prev = watch_state(groups, selected.drop_last(), s);
        let k = first_group(groups, selected.last());
        if 0 <= k < groups.len() && groups[k].syscalls.contains(s) {
            watch_step(prev, groups[k])
        } else {
            prev
        }
    }
}

/// Storing an entry for `x` whose settings are `target`'s keeps every
/// syscall's settings those of `target`.
proof fn lemma_put_state(
    acts: Seq<ActiveView>,
    x: Seq<char>,
    e: ActiveView,
    t1: spec_fn(Seq<char>) -> WatchState,
    t2: spec_fn(Seq<char>) -> WatchState,
)
    requires
        names_distinct(acts),
        forall|i: int| 0 <= i < acts.len() ==> #[trigger] state_of(acts[i]) == t1(acts[i].name),
        e.name == x,
        state_of(e) == t2(x),
        forall|n: Seq<char>| n != x ==> #[trigger] t2(n) == t1(n),
    ensures
        forall|i: int|
            0 <= i < put_active(acts, last_active(acts, x), e).len() ==> #[trigger] state_of(
                put_active(acts, last_active(acts, x), e)[i],
            ) == t2(put_active(acts, last_active(acts, x), e)[i].name),
{
    lemma_last_active(acts, x);
    let k = last_active(acts, x);
    let r = put_active(acts, k, e);
    assert forall|i: int| 0 <= i < r.len() implies #[trigger] state_of(r[i]) == t2(r[i].name) by {
        if (k < 0 && i == acts.len()) || i == k {
            assert(r[i] == e);
        } else {
            assert(r[i] == acts[i]);
            assert(state_of(acts[i]) == t1(acts[i].name));
            if acts[i].name == x {
                if i < k {
                    assert(acts[i].name != acts[k].name);
                } else {
                    assert(acts[k].name != acts[i].name);
                }
            }
        }
    }
}

proof fn lemma_print_group_state(acts: Seq<ActiveView>, names: Seq<Seq<char>>, groups: Seq<SyscallGroupView>)
    requires
        names_distinct(acts),
        forall|i: int|
            0 <= i < acts.len() ==> #[trigger] state_of(acts[i]) == watch_state(groups, seq![], acts[i].name),
    ensures
        forall|i: int|
            0 <= i < print_group(acts, names).len() ==> #[trigger] state_of(print_group(acts, names)[i])
                == watch_state(groups, seq![], print_group(acts, names)[i].name),
    decreases names.len(),
{
    if names.len() > 0 {
        let prev = names.drop_last();
        lemma_print_group_state(acts, prev, groups);
        lemma_print_group_names(acts, prev);
        let a = print_group(acts, prev);
        let x = names.last();
        lemma_last_active(a, x);
        let k = last_active(a, x);
        let e = active_at(a, k, x);
        let t = |n: Seq<char>| watch_state(groups, seq![], n);
        if k >= 0 {
            assert(state_of(a[k]) == watch_state(groups, seq![], a[k].name));
        } else {
            assert(state_of(e) == watch_state(groups, seq![], x));
        }
        lemma_put_state(a, x, ActiveView { flags: e.flags | SYSCALL_FLAG_PRINT, ..e }, t, t);
    }
}

proof fn lemma_print_pass_state(groups: Seq<SyscallGroupView>, selected: Seq<Seq<char>>)
    ensures
        print_pass(seq![], groups, selected) matches Ok(a) ==> forall|i: int|
            0 <= i < a.len() ==> #[trigger] state_of(a[i]) == watch_state(groups, seq![], a[i].name),
    decreases selected.len(),
{
    if selected.len() > 0 {
        let prev = selected.drop_last();
        lemma_print_pass_state(groups, prev);
        lemma_print_pass_names(seq![], groups, prev);
        if let Ok(a) = print_pass(seq![], groups, prev) {
            let k = last_group(groups, selected.last());
            if k >= 0 {
                lemma_print_group_state(a, groups[k].syscalls, groups);
            }
        }
    }
}

proof fn lemma_watch_group_state(
    acts: Seq<ActiveView>,
    g: SyscallGroupView,
    names: Seq<Seq<char>>,
    base: spec_fn(Seq<char>) -> WatchState,
)
    requires
        names_distinct(acts),
        forall|i: int| 0 <= i < acts.len() ==> #[trigger] state_of(acts[i]) == base(acts[i].name),
        forall|n: Seq<char>| #[trigger] last_active(acts, n) < 0 ==> base(n) == (WatchState { wp: None, fp: None, mask: 0, set: false }),
    ensures
        watch_group(acts, g, names) matches Ok(r) ==> forall|i: int|
            0 <= i < r.len() ==> #[trigger] state_of(r[i]) == (if names.contains(r[i].name) {
                watch_step(base(r[i].name), g)
            } else {
                base(r[i].name)
            }),
        watch_group(acts, g, names) matches Ok(r) ==> forall|n: Seq<char>|
            #[trigger] last_active(r, n) < 0 ==> base(n) == (WatchState { wp: None, fp: None, mask: 0, set: false }),
        watch_group(acts, g, names) matches Ok(r) ==> forall|n: Seq<char>|
            names.contains(n) ==> #[trigger] last_active(r, n) >= 0,
    decreases names.len(),
{
    if names.len() > 0 {
        let prev = names.drop_last();
        let x = names.last();
        lemma_watch_group_state(acts, g, prev, base);
        lemma_watch_group_names(acts, g, prev);
        if let Ok(a) = watch_group(acts, g, prev) {
            lemma_seq_set_push(names);
            let t1 = |n: Seq<char>| if prev.contains(n) {
                watch_step(base(n), g)
            } else {
                base(n)
            };
            let t2 = |n: Seq<char>| if names.contains(n) {
                watch_step(base(n), g)
            } else {
                base(n)
            };
            assert forall|n: Seq<char>| n != x implies #[trigger] t2(n) == t1(n) by {
                assert(names.to_set().contains(n) == prev.to_set().contains(n));
            }
            assert(names.to_set().contains(x));
            lemma_last_active(a, x);
            let k = last_active(a, x);
            let e = active_at(a, k, x);
            if k >= 0 {
                assert(state_of(a[k]) == t1(a[k].name));
            } else {
                if prev.contains(x) {
                    assert(last_active(a, x) >= 0);
                }
                assert(last_active(a, x) < 0);
            }
            assert(state_of(e) == t1(x));
            // Applying the group a second time changes nothing.
            assert(watch_step(watch_step(base(x), g), g) == watch_step(base(x), g));
            let wp = if e.watch_param is Some {
                e.watch_param
            } else {
                g.watch_param
            };
            let mask = or_u32(g.watch_flag_mask, 0);
            let e2 = ActiveView {
                flags: e.flags | SYSCALL_FLAG_WATCH,
                watch_param: wp,
                watch_set: true,
                ..e
            };
            if let Ok(r) = watch_group(acts, g, names) {
                if e.fl_param is Some {
                    lemma_put_state(a, x, e2, t1, t2);
                } else {
                    lemma_put_state(
                        a,
                        x,
                        ActiveView { fl_param: g.watch_flag_param, fl_mask: mask, ..e2 },
                        t1,
                        t2,
                    );
                }
                assert forall|n: Seq<char>| #[trigger] last_active(r, n) < 0 implies base(n) == (WatchState {
                    wp: None,
                    fp: None,
                    mask: 0,
                    set: false,
                }) by {
                    lemma_last_active(r, n);
                    lemma_last_active(a, n);
                    if last_active(a, n) >= 0 {
                        let j = last_active(a, n);
                        assert(r[j].name == n);
                    }
                }
                assert forall|n: Seq<char>| names.contains(n) implies #[trigger] last_active(r, n) >= 0 by {
                    lemma_last_active(r, n);
                    if n == x {
                        if k >= 0 {
                            assert(r[k].name == x);
                        } else {
                            assert(r[a.len() as int].name == x);
                        }
                    } else {
                        assert(names.to_set().contains(n) == prev.to_set().contains(n));
                        assert(last_active(a, n) >= 0);
                        lemma_last_active(a, n);
                        let j = last_active(a, n);
                        if k >= 0 {
                            assert(j != k);
                        }
                        assert(r[j].name == n);
                    }
                }
                assert forall|i: int| 0 <= i < r.len() implies #[trigger] state_of(r[i]) == (if names.contains(r[i].name) {
                    watch_step(base(r[i].name), g)
                } else {
                    base(r[i].name)
                }) by {
                    assert(state_of(r[i]) == t2(r[i].name));
                }
            }
        }
    }
}

proof fn lemma_watch_pass_state(acts: Seq<ActiveView>, groups: Seq<SyscallGroupView>, selected: Seq<Seq<char>>)
    requires
        names_distinct(acts),
        forall|i: int|
            0 <= i < acts.len() ==> #[trigger] state_of(acts[i]) == watch_state(groups, seq![], acts[i].name),
    ensures
        watch_pass(acts, groups, selected) matches Ok(a) ==> forall|i: int|
            0 <= i < a.len() ==> #[trigger] state_of(a[i]) == watch_state(groups, selected, a[i].name),
        watch_pass(acts, groups, selected) matches Ok(a) ==> forall|n: Seq<char>|
            #[trigger] last_active(a, n) < 0 ==> watch_state(groups, selected, n) == (WatchState {
                wp: None,
                fp: None,
                mask: 0,
                set: false,
            }),
    decreases selected.len(),
{
    if selected.len() > 0 {
        let prev = selected.drop_last();
        lemma_watch_pass_state(acts, groups, prev);
        lemma_watch_pass_names(acts, groups, prev);
        if let Ok(a) = watch_pass(acts, groups, prev) {
            let k = first_group(groups, selected.last());
            lemma_first_group(groups, selected.last());
            if k >= 0 {
                let base = |n: Seq<char>| watch_state(groups, prev, n);
                assert forall|i: int| 0 <= i < a.len() implies #[trigger] state_of(a[i]) == base(a[i].name) by {}
                assert forall|n: Seq<char>| #[trigger] last_active(a, n) < 0 implies base(n) == (WatchState {
                    wp: None,
                    fp: None,
                    mask: 0,
                    set: false,
                }) by {}
                lemma_watch_group_state(a, groups[k], groups[k].syscalls, base);
                if let Ok(r) = watch_pass(acts, groups, selected) {
                    assert forall|i: int| 0 <= i < r.len() implies #[trigger] state_of(r[i]) == watch_state(
                        groups,
                        selected,
                        r[i].name,
                    ) by {}
                    assert forall|n: Seq<char>| #[trigger] last_active(r, n) < 0 implies watch_state(
                        groups,
                        selected,
                        n,
                    ) == (WatchState { wp: None, fp: None, mask: 0, set: false }) by {
                        if groups[k].syscalls.contains(n) {
                            assert(last_active(r, n) >= 0);
                        }
                    }
                }
            }
        }
    }
}

proof fn lemma_last_group(groups: Seq<SyscallGroupView>, name: Seq<char>)
    ensures
        -1 <= last_group(groups, name) < groups.len(),
    decreases groups.len(),
{
    if groups.len() > 0 {
        lemma_last_group(groups.drop_last(), name);
    }
}

proof fn lemma_first_group(groups: Seq<SyscallGroupView>, name: Seq<char>)
    ensures
        -1 <= first_group(groups, name) < groups.len(),
    decreases groups.len(),
{
    if groups.len() > 0 {
        lemma_first_group(groups.drop_last(), name);
    }
}

/// One activated syscall while groups are applied.
pub struct Active {
    pub name: String,
    pub flags: u32,
    pub watch_param: Option<String>,
    pub watch_set: bool,
    pub fl_param: Option<String>,
    pub fl_mask: u32,
}

impl View for Active {
    type V = ActiveView;

    open spec fn view(&self) -> ActiveView {
        ActiveView {
            name: self.name@,
            flags: self.flags,
            watch_param: opt_str_view(self.watch_param),
            watch_set: self.watch_set,
            fl_param: opt_str_view(self.fl_param),
            fl_mask: self.fl_mask,
        }
    }
}

/// Views of activated syscalls.
pub open spec fn acts_view(s: Seq<Active>) -> Seq<ActiveView> {
    s.map_values(|a: Active| a@)
}

/// Copies an optional string.
pub fn clone_opt_str(o: &Option<String>) -> (r: Option<String>)
    ensures
        opt_str_view(r) == opt_str_view(*o),
{
    match o {
        Some(s) => Some(s.clone()),
        None => None,
    }
}

/// Whether two optional strings are equal.
pub fn opt_str_eq(a: &Option<String>, b: &Option<String>) -> (r: bool)
    ensures
        r == (opt_str_view(*a) == opt_str_view(*b)),
{
    match (a, b) {
        (Some(x), Some(y)) => x.eq(y),
        (None, None) => true,
        _ => false,
    }
}

fn copy_active(a: &Active) -> (r: Active)
    ensures
        r@ == a@,
{
    Active {
        name: a.name.clone(),
        flags: a.flags,
        watch_param: clone_opt_str(&a.watch_param),
        watch_set: a.watch_set,
        fl_param: clone_opt_str(&a.fl_param),
        fl_mask: a.fl_mask,
    }
}

/// Finds the last activated syscall called `name`.
fn find_active(acts: &Vec<Active>, name: &String) -> (k: Option<usize>)
    ensures
        match k {
            Some(i) => i as int == last_active(acts_view(acts@), name@) && i < acts@.len(),
            None => last_active(acts_view(acts@), name@) == -1,
        },
{
    let ghost v = acts_view(acts@);
    let mut found: Option<usize> = None;
    let mut j: usize = 0;
    while j < acts.len()
        invariant
            j <= acts@.len(),
            v == acts_view(acts@),
            match found {
                Some(i) => i as int == last_active(v.take(j as int), name@) && i < j,
                None => last_active(v.take(j as int), name@) == -1,
            },
        decreases acts@.len() - j,
    {
        proof {
            assert(v.take(j + 1).drop_last() =~= v.take(j as int));
        }
        if acts[j].name == *name {
            found = Some(j);
        }
        j += 1;
    }
    proof {
        assert(v.take(j as int) =~= v);
    }
    found
}

/// Marks one syscall as printed.
fn apply_print_exec(acts: &mut Vec<Active>, name: &String)
    ensures
        acts_view(final(acts)@) == apply_print(acts_view(old(acts)@), name@),
{
    let ghost v = acts_view(acts@);
    match find_active(acts, name) {
        Some(k) => {
            let mut e = copy_active(&acts[k]);
            e.flags = e.flags | SYSCALL_FLAG_PRINT;
            acts[k] = e;
            proof {
                assert(acts_view(acts@) =~= apply_print(v, name@));
            }
        },
        None => {
            acts.push(
                Active {
                    name: name.clone(),
                    flags: SYSCALL_FLAG_PRINT,
                    watch_param: None,
                    watch_set: false,
                    fl_param: None,
                    fl_mask: 0,
                },
            );
            proof {
                assert(0u32 | SYSCALL_FLAG_PRINT == SYSCALL_FLAG_PRINT) by (bit_vector);
                assert(acts_view(acts@) =~= apply_print(v, name@));
            }
        },
    }
}

/// Finds the last group called `name`.
fn find_last_group(groups: &[SyscallGroup], name: &String) -> (k: Option<usize>)
    ensures
        match k {
            Some(i) => i as int == last_group(groups_view(groups@), name@) && i < groups@.len(),
            None => last_group(groups_view(groups@), name@) == -1,
        },
{
    let ghost v = groups_view(groups@);
    let mut found: Option<usize> = None;
    let mut j: usize = 0;
    while j < groups.len()
        invariant
            j <= groups@.len(),
            v == groups_view(groups@),
            match found {
                Some(i) => i as int == last_group(v.take(j as int), name@) && i < j,
                None => last_group(v.take(j as int), name@) == -1,
            },
        decreases groups@.len() - j,
    {
        proof {
            assert(v.take(j + 1).drop_last() =~= v.take(j as int));
        }
        if groups[j].name == *name {
            found = Some(j);
        }
        j += 1;
    }
    proof {
        assert(v.take(j as int) =~= v);
    }
    found
}

/// Finds the first group called `name`.
fn find_first_group(groups: &[SyscallGroup], name: &String) -> (k: Option<usize>)
    ensures
        match k {
            Some(i) => i as int == first_group(groups_view(groups@), name@) && i < groups@.len(),
            None => first_group(groups_view(groups@), name@) == -1,
        },
{
    let ghost v = groups_view(groups@);
    let mut found: Option<usize> = None;
    let mut j: usize = 0;
    while j < groups.len()
        invariant
            j <= groups@.len(),
            v == groups_view(groups@),
            match found {
                Some(i) => i as int == first_group(v.take(j as int), name@) && i < j,
                None => first_group(v.take(j as int), name@) == -1,
            },
        decreases groups@.len() - j,
    {
        proof {
            assert(v.take(j + 1).drop_last() =~= v.take(j as int));
        }
        if found.is_none() && groups[j].name == *name {
            found = Some(j);
        }
        j += 1;
    }
    proof {
        assert(v.take(j as int) =~= v);
    }
    found
}

/// Applies the selected print groups in order.
fn print_pass_exec(acts: &mut Vec<Active>, groups: &[SyscallGroup], selected: &[String]) -> (r:
    Result<(), String>)
    ensures
        match print_pass(acts_view(old(acts)@), groups_view(groups@), strs_view(selected@)) {
            Ok(a) => r is Ok && acts_view(final(acts)@) == a,
            Err(f) => r matches Err(m) && m@ == fault_message(f),
        },
{
    let ghost a0 = acts_view(acts@);
    let ghost gv = groups_view(groups@);
    let ghost sv = strs_view(selected@);
    let mut i: usize = 0;
    while i < selected.len()
        invariant
            i <= selected@.len(),
            gv == groups_view(groups@),
            sv == strs_view(selected@),
            a0 == acts_view(old(acts)@),
            print_pass(a0, gv, sv.take(i as int)) == Ok::<Seq<ActiveView>, Fault>(
                acts_view(acts@),
            ),
        decreases selected@.len() - i,
    {
        proof {
            assert(sv.take(i + 1).drop_last() =~= sv.take(i as int));
        }
        let gname = &selected[i];
        match find_last_group(groups, gname) {
            None => {
                proof {
                    assert(print_pass(a0, gv, sv.take(i + 1)) == Err::<Seq<ActiveView>, Fault>(
                        Fault::UnknownPrintGroup(gname@)));
                    lemma_print_pass_err_extends(a0, gv, sv, i as int + 1);
                }
                return Err(message3("[print]: unknown group '", gname.as_str(), "'"));
            },
            Some(k) => {
                let names = &groups[k].syscalls;
                let ghost nv = strs_view(names@);
                let ghost start = acts_view(acts@);
                let mut j: usize = 0;
                while j < names.len()
                    invariant
                        j <= names@.len(),
                        nv == strs_view(names@),
                        acts_view(acts@) == print_group(start, nv.take(j as int)),
                    decreases names@.len() - j,
                {
                    proof {
                        assert(nv.take(j + 1).drop_last() =~= nv.take(j as int));
                    }
                    apply_print_exec(acts, &names[j]);
                    j += 1;
                }
                proof {
                    assert(nv.take(j as int) =~= nv);
                    assert(gv[k as int].syscalls == nv);
                }
            },
        }
        i += 1;
    }
    proof {
        assert(sv.take(i as int) =~= sv);
    }
    Ok(())
}

/// Once the print pass has failed on a prefix, it fails the same way on
/// every longer prefix.
proof fn lemma_print_pass_err_extends(
    a: Seq<ActiveView>,
    g: Seq<SyscallGroupView>,
    s: Seq<Seq<char>>,
    n: int,
)
    requires
        0 <= n <= s.len(),
        print_pass(a, g, s.take(n)) is Err,
    ensures
        print_pass(a, g, s) == print_pass(a, g, s.take(n)),
    decreases s.len() - n,
{
    if n < s.len() {
        assert(s.take(n + 1).drop_last() =~= s.take(n));
        lemma_print_pass_err_extends(a, g, s, n + 1);
    } else {
        assert(s.take(n) =~= s);
    }
}

/// Marks one syscall as watched by group `g`.
fn apply_watch_exec(acts: &mut Vec<Active>, name: &String, g: &SyscallGroup) -> (r: Result<
    (),
    String,
>)
    ensures
        match apply_watch(acts_view(old(acts)@), name@, g@) {
            Ok(a) => r is Ok && acts_view(final(acts)@) == a,
            Err(f) => r matches Err(m) && m@ == fault_message(f),
        },
{
    let ghost v = acts_view(acts@);
    let k = find_active(acts, name);
    let e = match k {
        Some(i) => copy_active(&acts[i]),
        None => Active {
            name: name.clone(),
            flags: 0,
            watch_param: None,
            watch_set: false,
            fl_param: None,
            fl_mask: 0,
        },
    };
    let ghost kk: int = match k {
        Some(i) => i as int,
        None => -1,
    };
    assert(e@ == active_at(v, kk, name@));
    if e.watch_set && !opt_str_eq(&e.watch_param, &g.watch_param) {
        return Err(message3("syscall '", name.as_str(), "': conflicting watch params"));
    }
    let wp = if e.watch_param.is_some() {
        e.watch_param
    } else {
        clone_opt_str(&g.watch_param)
    };
    let mask = match g.watch_flag_mask {
        Some(m) => m,
        None => 0,
    };
    let mut e2 = Active {
        name: e.name,
        flags: e.flags | SYSCALL_FLAG_WATCH,
        watch_param: wp,
        watch_set: true,
        fl_param: e.fl_param,
        fl_mask: e.fl_mask,
    };
    if e2.fl_param.is_some() {
        if !opt_str_eq(&e2.fl_param, &g.watch_flag_param) || e2.fl_mask != mask {
            return Err(message3("syscall '", name.as_str(), "': conflicting watch flag filters"));
        }
    } else {
        e2.fl_param = clone_opt_str(&g.watch_flag_param);
        e2.fl_mask = mask;
    }
    match k {
        Some(i) => {
            acts[i] = e2;
        },
        None => {
            acts.push(e2);
        },
    }
    proof {
        assert(acts_view(acts@) =~= apply_watch(v, name@, g@)->Ok_0);
    }
    Ok(())
}

/// Once the watch group has failed on a prefix of its syscalls, it fails
/// the same way on the whole list.
proof fn lemma_watch_group_err_extends(
    a: Seq<ActiveView>,
    g: SyscallGroupView,
    s: Seq<Seq<char>>,
    n: int,
)
    requires
        0 <= n <= s.len(),
        watch_group(a, g, s.take(n)) is Err,
    ensures
        watch_group(a, g, s) == watch_group(a, g, s.take(n)),
    decreases s.len() - n,
{
    if n < s.len() {
        assert(s.take(n + 1).drop_last() =~= s.take(n));
        lemma_watch_group_err_extends(a, g, s, n + 1);
    } else {
        assert(s.take(n) =~= s);
    }
}

/// Once the watch pass has failed on a prefix, it fails the same way on
/// every longer prefix.
proof fn lemma_watch_pass_err_extends(
    a: Seq<ActiveView>,
    g: Seq<SyscallGroupView>,
    s: Seq<Seq<char>>,
    n: int,
)
    requires
        0 <= n <= s.len(),
        watch_pass(a, g, s.take(n)) is Err,
    ensures
        watch_pass(a, g, s) == watch_pass(a, g, s.take(n)),
    decreases s.len() - n,
{
    if n < s.len() {
        assert(s.take(n + 1).drop_last() =~= s.take(n));
        lemma_watch_pass_err_extends(a, g, s, n + 1);
    } else {
        assert(s.take(n) =~= s);
    }
}

/// Applies the syscalls of one watch group in order.
fn watch_group_exec(acts: &mut Vec<Active>, g: &SyscallGroup) -> (r: Result<(), String>)
    ensures
        match watch_group(acts_view(old(acts)@), g@, g@.syscalls) {
            Ok(a) => r is Ok && acts_view(final(acts)@) == a,
            Err(f) => r matches Err(m) && m@ == fault_message(f),
        },
{
    let ghost a0 = acts_view(acts@);
    let names = &g.syscalls;
    let ghost nv = strs_view(names@);
    let mut j: usize = 0;
    while j < names.len()
        invariant
            j <= names@.len(),
            nv == strs_view(names@),
            nv == g@.syscalls,
            a0 == acts_view(old(acts)@),
            watch_group(a0, g@, nv.take(j as int)) == Ok::<Seq<ActiveView>, Fault>(
                acts_view(acts@),
            ),
        decreases names@.len() - j,
    {
        proof {
            assert(nv.take(j + 1).drop_last() =~= nv.take(j as int));
        }
        let ghost before = acts_view(acts@);
        let r = apply_watch_exec(acts, &names[j], g);
        if r.is_err() {
            proof {
                lemma_watch_group_err_extends(a0, g@, nv, j + 1);
            }
            return r;
        }
        j += 1;
    }
    proof {
        assert(nv.take(j as int) =~= nv);
    }
    Ok(())
}

/// Applies the selected watch groups in order.
fn watch_pass_exec(acts: &mut Vec<Active>, groups: &[SyscallGroup], selected: &[String]) -> (r:
    Result<(), String>)
    ensures
        match watch_pass(acts_view(old(acts)@), groups_view(groups@), strs_view(selected@)) {
            Ok(a) => r is Ok && acts_view(final(acts)@) == a,
            Err(f) => r matches Err(m) && m@ == fault_message(f),
        },
{
    let ghost a0 = acts_view(acts@);
    let ghost gv = groups_view(groups@);
    let ghost sv = strs_view(selected@);
    let mut i: usize = 0;
    while i < selected.len()
        invariant
            i <= selected@.len(),
            gv == groups_view(groups@),
            sv == strs_view(selected@),
            a0 == acts_view(old(acts)@),
            watch_pass(a0, gv, sv.take(i as int)) == Ok::<Seq<ActiveView>, Fault>(
                acts_view(acts@),
            ),
        decreases selected@.len() - i,
    {
        proof {
            assert(sv.take(i + 1).drop_last() =~= sv.take(i as int));
        }
        let gname = &selected[i];
        match find_first_group(groups, gname) {
            None => {
                proof {
                    lemma_watch_pass_err_extends(a0, gv, sv, i as int + 1);
                }
                return Err(message3("[watch]: unknown group '", gname.as_str(), "'"));
            },
            Some(k) => {
                let g = &groups[k];
                if g.watch_flag_mask.is_some() != g.watch_flag_param.is_some() {
                    proof {
                        lemma_watch_pass_err_extends(a0, gv, sv, i as int + 1);
                    }
                    return Err(
                        message3(
                            "[watch]: group '",
                            gname.as_str(),
                            "': watch_flag_mask 与 watch_flag_param 必须成对出现",
                        ),
                    );
                }
                let r = watch_group_exec(acts, g);
                if r.is_err() {
                    proof {
                        lemma_watch_pass_err_extends(a0, gv, sv, i as int + 1);
                    }
                    return r;
                }
            },
        }
        i += 1;
    }
    proof {
        assert(sv.take(i as int) =~= sv);
    }
    Ok(())
}

/// Finds the last syscall definition called `name`.
fn find_def(defs: &[SyscallDef], name: &String) -> (k: Option<usize>)
    ensures
        match k {
            Some(i) => i as int == last_def(defs_view(defs@), name@) && i < defs@.len(),
            None => last_def(defs_view(defs@), name@) == -1,
        },
{
    let ghost v = defs_view(defs@);
    let mut found: Option<usize> = None;
    let mut j: usize = 0;
    while j < defs.len()
        invariant
            j <= defs@.len(),
            v == defs_view(defs@),
            match found {
                Some(i) => i as int == last_def(v.take(j as int), name@) && i < j,
                None => last_def(v.take(j as int), name@) == -1,
            },
        decreases defs@.len() - j,
    {
        proof {
            assert(v.take(j + 1).drop_last() =~= v.take(j as int));
        }
        if defs[j].name == *name {
            found = Some(j);
        }
        j += 1;
    }
    proof {
        assert(v.take(j as int) =~= v);
    }
    found
}

/// Finds the first argument of the given kind, named `name` when one is
/// given.
fn find_arg(args: &[ArgDef], kind: ArgType, name: Option<&String>) -> (k: Option<usize>)
    ensures
        ({
            let v = args_view(args@);
            let spec_k = match (kind, name) {
                (ArgType::Str, Some(n)) => first_str_named(v, n@),
                (ArgType::Str, None) => first_str(v),
                (ArgType::Int, Some(n)) => first_int_named(v, n@),
                (ArgType::Int, None) => -1,
            };
            match k {
                Some(i) => i as int == spec_k && i < args@.len(),
                None => spec_k == -1,
            }
        }),
{
    if kind == ArgType::Int && name.is_none() {
        return None;
    }
    let ghost v = args_view(args@);
    let ghost f = |w: Seq<ArgDefView>|
        match (kind, name) {
            (ArgType::Str, Some(n)) => first_str_named(w, n@),
            (ArgType::Str, None) => first_str(w),
            (ArgType::Int, Some(n)) => first_int_named(w, n@),
            (ArgType::Int, None) => -1,
        };
    let mut found: Option<usize> = None;
    let mut j: usize = 0;
    while j < args.len()
        invariant
            j <= args@.len(),
            v == args_view(args@),
            !(kind == ArgType::Int && name is None),
            f == (|w: Seq<ArgDefView>|
                match (kind, name) {
                    (ArgType::Str, Some(n)) => first_str_named(w, n@),
                    (ArgType::Str, None) => first_str(w),
                    (ArgType::Int, Some(n)) => first_int_named(w, n@),
                    (ArgType::Int, None) => -1,
                }),
            match found {
                Some(i) => i as int == f(v.take(j as int)) && i < j,
                None => f(v.take(j as int)) == -1,
            },
        decreases args@.len() - j,
    {
        proof {
            assert(v.take(j + 1).drop_last() =~= v.take(j as int));
        }
        if found.is_none() && args[j].arg_type == kind {
            let hit = match name {
                Some(n) => args[j].name == *n,
                None => true,
            };
            if hit {
                found = Some(j);
            }
        }
        j += 1;
    }
    proof {
        assert(v.take(j as int) =~= v);
    }
    found
}

/// Register of the path argument: the string argument named `param` if
/// there is one, else the first string argument.
pub fn resolve_str_register(args: &[ArgDef], param: &Option<String>) -> (r: Option<u32>)
    ensures
        r == str_register(args_view(args@), opt_str_view(*param)),
{
    let named = match param {
        Some(p) => find_arg(args, ArgType::Str, Some(p)),
        None => None,
    };
    match named {
        Some(i) => Some(args[i].reg),
        None => match find_arg(args, ArgType::Str, None) {
            Some(i) => Some(args[i].reg),
            None => None,
        },
    }
}

/// Register of the integer argument named `name`.
pub fn resolve_int_register(args: &[ArgDef], name: &String) -> (r: Option<u32>)
    ensures
        r == int_register(args_view(args@), name@),
{
    match find_arg(args, ArgType::Int, Some(name)) {
        Some(i) => Some(args[i].reg),
        None => None,
    }
}

/// Kernel map entry for one activated syscall on one ABI.
fn abi_entry_exec(a: &Active, d: &SyscallDef, is64: bool) -> (r: Result<
    Option<(u32, SyscallArgInfo)>,
    String,
>)
    ensures
        match abi_entry(a@, d@, is64) {
            Ok(e) => r == Ok::<Option<(u32, SyscallArgInfo)>, String>(e),
            Err(f) => r matches Err(m) && m@ == fault_message(f),
        },
{
    let nr = if is64 {
        d.nr.arm64
    } else {
        d.nr.arm32
    };
    let args = if is64 {
        &d.arm64
    } else {
        &d.arm32
    };
    let label = if is64 {
        "arm64"
    } else {
        "arm32"
    };
    proof {
        reveal_strlit("arm64");
        reveal_strlit("arm32");
    }
    assert(label@ == abi_label(is64));
    match nr {
        None => Ok(None),
        Some(n) => match resolve_str_register(args.as_slice(), &a.watch_param) {
            None => {
                let mut m = message3("syscall '", a.name.as_str(), "' ");
                push_str(&mut m, label);
                push_str(&mut m, ": no str param");
                Err(m)
            },
            Some(reg) => {
                let fl = match &a.fl_param {
                    Some(p) => resolve_int_register(args.as_slice(), p),
                    None => Some(0u32),
                };
                match fl {
                    None => {
                        let mut m = message3("syscall '", a.name.as_str(), "' ");
                        push_str(&mut m, label);
                        push_str(&mut m, ": no int param '");
                        match &a.fl_param {
                            Some(p) => push_str(&mut m, p.as_str()),
                            None => {},
                        }
                        push_str(&mut m, "'");
                        Err(m)
                    },
                    Some(fl_reg) => Ok(
                        Some(
                            (
                                n,
                                SyscallArgInfo {
                                    str_reg_idx: reg,
                                    flags: a.flags,
                                    fl_reg_idx: fl_reg,
                                    fl_mask: a.fl_mask,
                                },
                            ),
                        ),
                    ),
                }
            },
        },
    }
}

/// Once entry collection has failed on a prefix, it fails the same way on
/// every longer prefix.
proof fn lemma_abi_entries_err_extends(a: Seq<ActiveView>, d: Seq<SyscallDefView>, n: int)
    requires
        0 <= n <= a.len(),
        abi_entries(a.take(n), d) is Err,
    ensures
        abi_entries(a, d) == abi_entries(a.take(n), d),
    decreases a.len() - n,
{
    if n < a.len() {
        assert(a.take(n + 1).drop_last() =~= a.take(n));
        lemma_abi_entries_err_extends(a, d, n + 1);
    } else {
        assert(a.take(n) =~= a);
    }
}

/// Map entries for all activated syscalls, in activation order.
fn abi_entries_exec(acts: &Vec<Active>, defs: &[SyscallDef]) -> (r: Result<
    (Vec<(u32, SyscallArgInfo)>, Vec<(u32, SyscallArgInfo)>),
    String,
>)
    ensures
        match abi_entries(acts_view(acts@), defs_view(defs@)) {
            Ok((l64, l32)) => r matches Ok((v64, v32)) && v64@ == l64 && v32@ == l32,
            Err(f) => r matches Err(m) && m@ == fault_message(f),
        },
{
    let ghost av = acts_view(acts@);
    let ghost dv = defs_view(defs@);
    let mut v64: Vec<(u32, SyscallArgInfo)> = Vec::new();
    let mut v32: Vec<(u32, SyscallArgInfo)> = Vec::new();
    let mut i: usize = 0;
    while i < acts.len()
        invariant
            i <= acts@.len(),
            av == acts_view(acts@),
            dv == defs_view(defs@),
            abi_entries(av.take(i as int), dv) == Ok::<
                (Seq<(u32, SyscallArgInfo)>, Seq<(u32, SyscallArgInfo)>),
                Fault,
            >((v64@, v32@)),
        decreases acts@.len() - i,
    {
        proof {
            assert(av.take(i + 1).drop_last() =~= av.take(i as int));
        }
        let a = &acts[i];
        match find_def(defs, &a.name) {
            None => {
                proof {
                    lemma_abi_entries_err_extends(av, dv, i + 1);
                }
                return Err(message3("undefined syscall '", a.name.as_str(), "'"));
            },
            Some(k) => {
                let d = &defs[k];
                match abi_entry_exec(a, d, true) {
                    Err(m) => {
                        proof {
                            lemma_abi_entries_err_extends(av, dv, i + 1);
                        }
                        return Err(m);
                    },
                    Ok(e64) => match abi_entry_exec(a, d, false) {
                        Err(m) => {
                            proof {
                                lemma_abi_entries_err_extends(av, dv, i + 1);
                            }
                            return Err(m);
                        },
                        Ok(e32) => {
                            match e64 {
                                Some(e) => v64.push(e),
                                None => {},
                            }
                            match e32 {
                                Some(e) => v32.push(e),
                                None => {},
                            }
                        },
                    },
                }
            },
        }
        i += 1;
    }
    proof {
        assert(av.take(i as int) =~= av);
    }
    Ok((v64, v32))
}

/// Whether `v` holds a string equal to `s`.
pub fn contains_string(v: &Vec<String>, s: &String) -> (r: bool)
    ensures
        r == strs_view(v@).contains(s@),
{
    let ghost w = strs_view(v@);
    let mut i: usize = 0;
    while i < v.len()
        invariant
            i <= v@.len(),
            w == strs_view(v@),
            forall|j: int| 0 <= j < i ==> w[j] != s@,
        decreases v@.len() - i,
    {
        if v[i] == *s {
            assert(w[i as int] == s@);
            return true;
        }
        i += 1;
    }
    false
}

/// Once the basename pass has failed on a prefix, it fails the same way on
/// every longer prefix.
proof fn lemma_basename_pass_err_extends(s: Seq<Seq<char>>, n: int)
    requires
        0 <= n <= s.len(),
        basename_pass(s.take(n)) is Err,
    ensures
        basename_pass(s) == basename_pass(s.take(n)),
    decreases s.len() - n,
{
    if n < s.len() {
        assert(s.take(n + 1).drop_last() =~= s.take(n));
        lemma_basename_pass_err_extends(s, n + 1);
    } else {
        assert(s.take(n) =~= s);
    }
}

/// Checks the watched basenames and drops repeated ones.
fn basename_pass_exec(names: &[String]) -> (r: Result<Vec<String>, String>)
    ensures
        match basename_pass(strs_view(names@)) {
            Ok(bs) => r matches Ok(v) && strs_view(v@) == bs,
            Err(f) => r matches Err(m) && m@ == fault_message(f),
        },
{
    let ghost nv = strs_view(names@);
    let mut out: Vec<String> = Vec::new();
    let mut i: usize = 0;
    proof {
        assert(nv.take(0) =~= Seq::<Seq<char>>::empty());
        assert(strs_view(out@) =~= Seq::<Seq<char>>::empty());
    }
    while i < names.len()
        invariant
            i <= names@.len(),
            nv == strs_view(names@),
            basename_pass(nv.take(i as int)) == Ok::<Seq<Seq<char>>, Fault>(strs_view(out@)),
        decreases names@.len() - i,
    {
        proof {
            assert(nv.take(i + 1).drop_last() =~= nv.take(i as int));
        }
        let b = &names[i];
        let n = b.as_str().as_bytes().len();
        proof {
            assert(nv.take(i + 1).last() == b@);
            assert(n == utf8_len(b@));
        }
        if n == 0 || n >= WATCH_BASE_MAX {
            proof {
                lemma_basename_pass_err_extends(nv, i + 1);
            }
            return Err(message3("[watch]: basename '", b.as_str(), "' 长度须在 1..63 字节"));
        }
        if !contains_string(&out, b) {
            let ghost before = strs_view(out@);
            out.push(b.clone());
            proof {
                assert(strs_view(out@) =~= before.push(b@));
            }
        }
        i += 1;
    }
    proof {
        assert(nv.take(i as int) =~= nv);
    }
    Ok(out)
}

/// Orders entries by syscall number, keeping every entry.
pub fn sort_by_nr(v: Vec<(u32, SyscallArgInfo)>) -> (r: Vec<(u32, SyscallArgInfo)>)
    ensures
        r@ == nr_sorted(v@),
        sorted_by_nr(r@),
        r@.to_multiset() == v@.to_multiset(),
{
    broadcast use vstd::seq_lib::to_multiset_insert;

    let mut out: Vec<(u32, SyscallArgInfo)> = Vec::new();
    let mut i: usize = 0;
    proof {
        assert(v@.take(0) =~= out@);
    }
    while i < v.len()
        invariant
            i <= v@.len(),
            sorted_by_nr(out@),
            out@ == nr_sorted(v@.take(i as int)),
            out@.to_multiset() == v@.take(i as int).to_multiset(),
        decreases v@.len() - i,
    {
        let x = v[i];
        let mut pos: usize = 0;
        while pos < out.len() && out[pos].0 <= x.0
            invariant
                pos <= out@.len(),
                forall|j: int| 0 <= j < pos ==> out@[j].0 <= x.0,
            decreases out@.len() - pos,
        {
            pos += 1;
        }
        let ghost before = out@;
        out.insert(pos, x);
        proof {
            assert(pos < before.len() ==> before[pos as int].0 > x.0);
            lemma_insert_pos(before, x.0, pos as int);
            assert(v@.take(i + 1).drop_last() =~= v@.take(i as int));
            assert(v@.take(i + 1).last() == x);
            assert(out@ == before.insert(pos as int, x));
            assert(v@.take(i + 1) =~= v@.take(i as int).push(x));
            vstd::seq_lib::to_multiset_build(v@.take(i as int), x);
            vstd::seq_lib::to_multiset_insert(before, pos as int, x);
            assert forall|a: int, b: int| 0 <= a <= b < out@.len() implies out@[a].0
                <= out@[b].0 by {
                if b < pos {
                } else if a > pos {
                    assert(out@[a] == before[a - 1]);
                    assert(out@[b] == before[b - 1]);
                } else if a == pos && b > pos {
                    assert(out@[b] == before[b - 1]);
                    assert(before[pos as int].0 > x.0);
                } else if a < pos && b == pos {
                } else if a < pos && b > pos {
                    assert(out@[b] == before[b - 1]);
                    assert(before[pos as int].0 > x.0);
                }
            }
        }
        i += 1;
    }
    proof {
        assert(v@.take(i as int) =~= v@);
    }
    out
}

/// `v` carries the outcome `o`: the entries of each ABI stably sorted by
/// syscall number, and the basenames in order.
pub open spec fn carries_outcome(v: ValidatedConfig, o: RulesOutcome) -> bool {
    &&& v.syscall_args_64@ == nr_sorted(o.args64)
    &&& v.syscall_args_32@ == nr_sorted(o.args32)
    &&& strs_view(v.watch_basenames@) == o.basenames
}

/// `r` reports what the rules decide: the kernel entries, or the
/// rejection with its message.
pub open spec fn reports_outcome(
    r: Result<ValidatedConfig, ConfigError>,
    o: Result<RulesOutcome, Fault>,
) -> bool {
    match o {
        Err(f) => r matches Err(ConfigError::Validation(m)) && m@ == fault_message(f),
        Ok(out) => r matches Ok(v) && carries_outcome(v, out),
    }
}

/// Validates selected print groups, watch groups and basenames against a
/// syscall table and a group table.
pub fn validate_rules(
    defs: &[SyscallDef],
    groups: &[SyscallGroup],
    print_groups: &[String],
    watch_groups: &[String],
    basenames: &[String],
) -> (r: Result<ValidatedConfig, ConfigError>)
    ensures
        reports_outcome(
            r,
            rules_outcome(
                defs_view(defs@),
                groups_view(groups@),
                strs_view(print_groups@),
                strs_view(watch_groups@),
                strs_view(basenames@),
            ),
        ),
{
    let mut acts: Vec<Active> = Vec::new();
    proof {
        assert(acts_view(acts@) =~= Seq::<ActiveView>::empty());
    }
    match print_pass_exec(&mut acts, groups, print_groups) {
        Err(m) => return Err(ConfigError::Validation(m)),
        Ok(()) => {},
    }
    match watch_pass_exec(&mut acts, groups, watch_groups) {
        Err(m) => return Err(ConfigError::Validation(m)),
        Ok(()) => {},
    }
    let (v64, v32) = match abi_entries_exec(&acts, defs) {
        Err(m) => return Err(ConfigError::Validation(m)),
        Ok(p) => p,
    };
    let bs = match basename_pass_exec(basenames) {
        Err(m) => return Err(ConfigError::Validation(m)),
        Ok(b) => b,
    };
    Ok(
        ValidatedConfig {
            syscall_args_64: sort_by_nr(v64),
            syscall_args_32: sort_by_nr(v32),
            watch_basenames: bs,
        },
    )
}

} // verus!
