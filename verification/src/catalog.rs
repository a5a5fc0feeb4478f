//! The built-in table of monitored syscalls and of the groups a
//! configuration can select.
use vstd::prelude::*;

verus! {

/// How a syscall argument is interpreted.
#[derive(Clone, Copy, Debug, PartialEq, Eq, Structural)]
pub enum ArgType {
    Str,
    Int,
}

/// One syscall argument: the register holding it, its kind and its name.
#[derive(Clone, Debug)]
pub struct ArgDef {
    pub reg: u32,
    pub arg_type: ArgType,
    pub name: String,
}

/// Abstract value of an [`ArgDef`].
pub struct ArgDefView {
    pub reg: u32,
    pub arg_type: ArgType,
    pub name: Seq<char>,
}

impl View for ArgDef {
    type V = ArgDefView;

    open spec fn view(&self) -> ArgDefView {
        ArgDefView { reg: self.reg, arg_type: self.arg_type, name: self.name@ }
    }
}

/// Syscall numbers on the two ABIs (absent where the syscall does not exist).
#[derive(Clone, Copy, Debug, PartialEq, Eq, Structural)]
pub struct SyscallNr {
    pub arm64: Option<u32>,
    pub arm32: Option<u32>,
}

/// A syscall with its numbers and its argument layout per ABI.
#[derive(Clone, Debug)]
pub struct SyscallDef {
    pub name: String,
    pub nr: SyscallNr,
    pub arm64: Vec<ArgDef>,
    pub arm32: Vec<ArgDef>,
}

/// Abstract value of a [`SyscallDef`].
pub struct SyscallDefView {
    pub name: Seq<char>,
    pub nr: SyscallNr,
    pub arm64: Seq<ArgDefView>,
    pub arm32: Seq<ArgDefView>,
}

/// Views of a sequence of argument definitions.
pub open spec fn args_view(s: Seq<ArgDef>) -> Seq<ArgDefView> {
    s.map_values(|a: ArgDef| a@)
}

impl View for SyscallDef {
    type V = SyscallDefView;

    open spec fn view(&self) -> SyscallDefView {
        SyscallDefView {
            name: self.name@,
            nr: self.nr,
            arm64: args_view(self.arm64@),
            arm32: args_view(self.arm32@),
        }
    }
}

/// A named set of syscalls, with the optional watch filters it applies.
#[derive(Clone, Debug)]
pub struct SyscallGroup {
    pub name: String,
    pub syscalls: Vec<String>,
    pub watch_param: Option<String>,
    pub watch_flag_param: Option<String>,
    pub watch_flag_mask: Option<u32>,
}

/// Abstract value of an optional string.
pub open spec fn opt_str_view(o: Option<String>) -> Option<Seq<char>> {
    match o {
        Some(s) => Some(s@),
        None => None,
    }
}

/// Views of a sequence of strings.
pub open spec fn strs_view(s: Seq<String>) -> Seq<Seq<char>> {
    s.map_values(|x: String| x@)
}

/// Abstract value of a [`SyscallGroup`].
pub struct SyscallGroupView {
    pub name: Seq<char>,
    pub syscalls: Seq<Seq<char>>,
    pub watch_param: Option<Seq<char>>,
    pub watch_flag_param: Option<Seq<char>>,
    pub watch_flag_mask: Option<u32>,
}

impl View for SyscallGroup {
    type V = SyscallGroupView;

    open spec fn view(&self) -> SyscallGroupView {
        SyscallGroupView {
            name: self.name@,
            syscalls: strs_view(self.syscalls@),
            watch_param: opt_str_view(self.watch_param),
            watch_flag_param: opt_str_view(self.watch_flag_param),
            watch_flag_mask: self.watch_flag_mask,
        }
    }
}

/// Views of a sequence of syscall definitions.
pub open spec fn defs_view(s: Seq<SyscallDef>) -> Seq<SyscallDefView> {
    s.map_values(|d: SyscallDef| d@)
}

/// Views of a sequence of groups.
pub open spec fn groups_view(s: Seq<SyscallGroup>) -> Seq<SyscallGroupView> {
    s.map_values(|g: SyscallGroup| g@)
}

/// A string argument.
pub open spec fn str_arg(reg: u32, name: Seq<char>) -> ArgDefView {
    ArgDefView { reg, arg_type: ArgType::Str, name }
}

/// An integer argument.
pub open spec fn int_arg(reg: u32, name: Seq<char>) -> ArgDefView {
    ArgDefView { reg, arg_type: ArgType::Int, name }
}

/// A catalog entry.
pub open spec fn def_view(
    name: Seq<char>,
    nr64: Option<u32>,
    nr32: Option<u32>,
    arm64: Seq<ArgDefView>,
    arm32: Seq<ArgDefView>,
) -> SyscallDefView {
    SyscallDefView { name, nr: SyscallNr { arm64: nr64, arm32: nr32 }, arm64, arm32 }
}

/// The built-in syscall table.
pub open spec fn catalog_syscalls() -> Seq<SyscallDefView> {
    seq![
        def_view("openat"@, Some(56), Some(322), seq![str_arg(1, "path"@), int_arg(2, "flags"@)], seq![str_arg(1, "path"@), int_arg(2, "flags"@)]),
        def_view("openat2"@, Some(437), None, seq![str_arg(1, "path"@)], seq![]),
        def_view("creat"@, None, Some(8), seq![], seq![str_arg(0, "path"@)]),
        def_view("mkdirat"@, Some(34), Some(323), seq![str_arg(1, "path"@)], seq![str_arg(1, "path"@)]),
        def_view("mkdir"@, None, Some(39), seq![], seq![str_arg(0, "path"@)]),
        def_view("renameat"@, Some(38), Some(329), seq![str_arg(1, "old"@), str_arg(3, "new"@)], seq![str_arg(1, "old"@), str_arg(3, "new"@)]),
        def_view("renameat2"@, Some(276), Some(382), seq![str_arg(1, "old"@), str_arg(3, "new"@)], seq![str_arg(1, "old"@), str_arg(3, "new"@)]),
        def_view("rename"@, None, Some(38), seq![], seq![str_arg(0, "old"@), str_arg(1, "new"@)]),
        def_view("unlinkat"@, Some(35), Some(328), seq![str_arg(1, "path"@)], seq![str_arg(1, "path"@)]),
        def_view("unlink"@, None, Some(10), seq![], seq![str_arg(0, "path"@)]),
    ]
}

/// A catalog group.
pub open spec fn group_view(
    name: Seq<char>,
    syscalls: Seq<Seq<char>>,
    watch_param: Option<Seq<char>>,
    watch_flag_param: Option<Seq<char>>,
    watch_flag_mask: Option<u32>,
) -> SyscallGroupView {
    SyscallGroupView { name, syscalls, watch_param, watch_flag_param, watch_flag_mask }
}

/// The built-in group table.
pub open spec fn catalog_groups() -> Seq<SyscallGroupView> {
    seq![
        group_view("create"@, seq!["openat"@], None, Some("flags"@), Some(0x40)),
        group_view("create_any"@, seq!["openat2"@, "creat"@, "mkdirat"@, "mkdir"@], None, None, None),
        group_view("rename_"@, seq!["renameat"@, "renameat2"@, "rename"@], Some("new"@), None, None),
        group_view("open_"@, seq!["openat"@], None, None, None),
        group_view("delete"@, seq!["unlinkat"@, "unlink"@], None, None, None),
    ]
}

/// The groups watched by a fresh installation.
pub open spec fn catalog_default_groups() -> Seq<Seq<char>> {
    seq!["create"@, "create_any"@, "rename_"@, "delete"@]
}

fn string_param(reg: u32, name: &str) -> (r: ArgDef)
    ensures
        r@ == str_arg(reg, name@),
{
    ArgDef { reg, arg_type: ArgType::Str, name: name.to_owned() }
}

fn int_param(reg: u32, name: &str) -> (r: ArgDef)
    ensures
        r@ == int_arg(reg, name@),
{
    ArgDef { reg, arg_type: ArgType::Int, name: name.to_owned() }
}

fn one_arg(a: ArgDef) -> (r: Vec<ArgDef>)
    ensures
        args_view(r@) == seq![a@],
{
    let mut v = Vec::new();
    v.push(a);
    proof {
        assert(args_view(v@) =~= seq![a@]);
    }
    v
}

fn two_args(a: ArgDef, b: ArgDef) -> (r: Vec<ArgDef>)
    ensures
        args_view(r@) == seq![a@, b@],
{
    let mut v = Vec::new();
    v.push(a);
    v.push(b);
    proof {
        assert(args_view(v@) =~= seq![a@, b@]);
    }
    v
}

fn no_args() -> (r: Vec<ArgDef>)
    ensures
        args_view(r@) == Seq::<ArgDefView>::empty(),
{
    let v = Vec::new();
    proof {
        assert(args_view(v@) =~= Seq::<ArgDefView>::empty());
    }
    v
}

fn entry(
    name: &str,
    nr64: Option<u32>,
    nr32: Option<u32>,
    arm64: Vec<ArgDef>,
    arm32: Vec<ArgDef>,
) -> (r: SyscallDef)
    ensures
        r@ == def_view(name@, nr64, nr32, args_view(arm64@), args_view(arm32@)),
{
    SyscallDef { name: name.to_owned(), nr: SyscallNr { arm64: nr64, arm32: nr32 }, arm64, arm32 }
}

/// The built-in syscall table.
pub fn syscalls() -> (r: Vec<SyscallDef>)
    ensures
        defs_view(r@) == catalog_syscalls(),
{
    let mut v: Vec<SyscallDef> = Vec::new();
    v.push(
        entry(
            "openat",
            Some(56),
            Some(322),
            two_args(string_param(1, "path"), int_param(2, "flags")),
            two_args(string_param(1, "path"), int_param(2, "flags")),
        ),
    );
    v.push(entry("openat2", Some(437), None, one_arg(string_param(1, "path")), no_args()));
    v.push(entry("creat", None, Some(8), no_args(), one_arg(string_param(0, "path"))));
    v.push(
        entry(
            "mkdirat",
            Some(34),
            Some(323),
            one_arg(string_param(1, "path")),
            one_arg(string_param(1, "path")),
        ),
    );
    v.push(entry("mkdir", None, Some(39), no_args(), one_arg(string_param(0, "path"))));
    v.push(
        entry(
            "renameat",
            Some(38),
            Some(329),
            two_args(string_param(1, "old"), string_param(3, "new")),
            two_args(string_param(1, "old"), string_param(3, "new")),
        ),
    );
    v.push(
        entry(
            "renameat2",
            Some(276),
            Some(382),
            two_args(string_param(1, "old"), string_param(3, "new")),
            two_args(string_param(1, "old"), string_param(3, "new")),
        ),
    );
    v.push(
        entry(
            "rename",
            None,
            Some(38),
            no_args(),
            two_args(string_param(0, "old"), string_param(1, "new")),
        ),
    );
    v.push(
        entry(
            "unlinkat",
            Some(35),
            Some(328),
            one_arg(string_param(1, "path")),
            one_arg(string_param(1, "path")),
        ),
    );
    v.push(entry("unlink", None, Some(10), no_args(), one_arg(string_param(0, "path"))));
    proof {
        assert(defs_view(v@) =~= catalog_syscalls());
    }
    v
}

fn names(items: &[&str]) -> (r: Vec<String>)
    ensures
        strs_view(r@) == items@.map_values(|s: &str| s@),
{
    let mut v: Vec<String> = Vec::new();
    let mut i: usize = 0;
    while i < items.len()
        invariant
            i <= items@.len(),
            v@.len() == i,
            forall|j: int| 0 <= j < i ==> #[trigger] v@[j]@ == items@[j]@,
        decreases items@.len() - i,
    {
        v.push(items[i].to_owned());
        i += 1;
    }
    proof {
        assert(strs_view(v@) =~= items@.map_values(|s: &str| s@));
    }
    v
}

fn opt_owned(s: Option<&str>) -> (r: Option<String>)
    ensures
        opt_str_view(r) == match s {
            Some(x) => Some(x@),
            None => None::<Seq<char>>,
        },
{
    match s {
        Some(x) => Some(x.to_owned()),
        None => None,
    }
}

fn group(
    name: &str,
    syscalls: &[&str],
    watch_param: Option<&str>,
    watch_flag_param: Option<&str>,
    watch_flag_mask: Option<u32>,
) -> (r: SyscallGroup)
    ensures
        r@ == group_view(
            name@,
            syscalls@.map_values(|s: &str| s@),
            match watch_param {
                Some(x) => Some(x@),
                None => None,
            },
            match watch_flag_param {
                Some(x) => Some(x@),
                None => None,
            },
            watch_flag_mask,
        ),
{
    SyscallGroup {
        name: name.to_owned(),
        syscalls: names(syscalls),
        watch_param: opt_owned(watch_param),
        watch_flag_param: opt_owned(watch_flag_param),
        watch_flag_mask,
    }
}

/// The built-in group table.
pub fn syscall_groups() -> (r: Vec<SyscallGroup>)
    ensures
        groups_view(r@) == catalog_groups(),
{
    let mut v: Vec<SyscallGroup> = Vec::new();
    let a: [&str; 1] = ["openat"];
    v.push(group("create", a.as_slice(), None, Some("flags"), Some(0x40)));
    let b: [&str; 4] = ["openat2", "creat", "mkdirat", "mkdir"];
    v.push(group("create_any", b.as_slice(), None, None, None));
    let c: [&str; 3] = ["renameat", "renameat2", "rename"];
    v.push(group("rename_", c.as_slice(), Some("new"), None, None));
    v.push(group("open_", a.as_slice(), None, None, None));
    let d: [&str; 2] = ["unlinkat", "unlink"];
    v.push(group("delete", d.as_slice(), None, None, None));
    proof {
        assert(a@.map_values(|s: &str| s@) =~= seq!["openat"@]);
        assert(b@.map_values(|s: &str| s@) =~= seq!["openat2"@, "creat"@, "mkdirat"@, "mkdir"@]);
        assert(c@.map_values(|s: &str| s@) =~= seq!["renameat"@, "renameat2"@, "rename"@]);
        assert(d@.map_values(|s: &str| s@) =~= seq!["unlinkat"@, "unlink"@]);
        assert(groups_view(v@) =~= catalog_groups());
    }
    v
}

/// The groups watched by a fresh installation.
pub fn default_groups() -> (r: Vec<String>)
    ensures
        strs_view(r@) == catalog_default_groups(),
{
    let d: [&str; 4] = ["create", "create_any", "rename_", "delete"];
    let r = names(d.as_slice());
    proof {
        assert(d@.map_values(|s: &str| s@) =~= catalog_default_groups());
    }
    r
}

} // verus!
