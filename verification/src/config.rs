//! User-editable monitor configuration and its validation against the
//! built-in syscall catalog.
use vstd::prelude::*;

use crate::abi::SyscallArgInfo;
use crate::catalog::{
    catalog_default_groups, catalog_groups, catalog_syscalls, default_groups, strs_view,
    syscall_groups, syscalls, SyscallDefView, SyscallGroupView,
};
use crate::rules::{
    entries_match, first_group, last_def, lemma_outcome_entries, lemma_outcome_nrs, nrs_distinct, reports_outcome, rules_outcome, sorted_by_nr,
    table_nrs_distinct, validate_rules,
};

verus! {

/// Why a configuration cannot be used.
#[derive(Debug)]
pub enum ConfigError {
    Validation(String),
}

/// Processes and users whose syscalls are never reported.
#[derive(Clone, Debug, Default)]
pub struct Whitelist {
    pub uid: Vec<u32>,
    pub pid: Vec<u32>,
}

/// Groups whose syscalls are always reported.
#[derive(Clone, Debug)]
pub struct PrintConfig {
    pub groups: Vec<String>,
}

/// Basenames to watch and the groups whose syscalls are checked for them.
#[derive(Clone, Debug)]
pub struct WatchConfig {
    pub basenames: Vec<String>,
    pub groups: Vec<String>,
}

/// User-editable fields.
#[derive(Clone, Debug, Default)]
pub struct Config {
    pub whitelist: Whitelist,
    pub watch: Option<WatchConfig>,
    pub print: Option<PrintConfig>,
}

/// What the kernel program is loaded with.
#[derive(Debug)]
pub struct ValidatedConfig {
    pub syscall_args_64: Vec<(u32, SyscallArgInfo)>,
    pub syscall_args_32: Vec<(u32, SyscallArgInfo)>,
    pub watch_basenames: Vec<String>,
}

/// Selected print groups (none when printing is off).
pub open spec fn print_groups_of(print: Option<PrintConfig>) -> Seq<Seq<char>> {
    match print {
        Some(p) => strs_view(p.groups@),
        None => seq![],
    }
}

/// Selected watch groups (none when watching is off).
pub open spec fn watch_groups_of(watch: Option<WatchConfig>) -> Seq<Seq<char>> {
    match watch {
        Some(w) => strs_view(w.groups@),
        None => seq![],
    }
}

/// Watched basenames (none when watching is off).
pub open spec fn basenames_of(watch: Option<WatchConfig>) -> Seq<Seq<char>> {
    match watch {
        Some(w) => strs_view(w.basenames@),
        None => seq![],
    }
}

/// Groups of an optional print section, as a slice.
pub fn print_group_list<'a>(print: &'a Option<PrintConfig>, empty: &'a Vec<String>) -> (r: &'a [String])
    requires
        empty@.len() == 0,
    ensures
        strs_view(r@) == print_groups_of(*print),
{
    match print {
        Some(p) => p.groups.as_slice(),
        None => {
            assert(strs_view(empty@) =~= Seq::<Seq<char>>::empty());
            empty.as_slice()
        },
    }
}

/// Groups of an optional watch section, as a slice.
pub fn watch_group_list<'a>(watch: &'a Option<WatchConfig>, empty: &'a Vec<String>) -> (r: &'a [String])
    requires
        empty@.len() == 0,
    ensures
        strs_view(r@) == watch_groups_of(*watch),
{
    match watch {
        Some(w) => w.groups.as_slice(),
        None => {
            assert(strs_view(empty@) =~= Seq::<Seq<char>>::empty());
            empty.as_slice()
        },
    }
}

/// Basenames of an optional watch section, as a slice.
pub fn basename_list<'a>(watch: &'a Option<WatchConfig>, empty: &'a Vec<String>) -> (r: &'a [String])
    requires
        empty@.len() == 0,
    ensures
        strs_view(r@) == basenames_of(*watch),
{
    match watch {
        Some(w) => w.basenames.as_slice(),
        None => {
            assert(strs_view(empty@) =~= Seq::<Seq<char>>::empty());
            empty.as_slice()
        },
    }
}

/// No two syscalls of the built-in table share a number on either ABI.
pub proof fn lemma_catalog_nrs_distinct()
    ensures
        table_nrs_distinct(catalog_syscalls()),
{
    let d = catalog_syscalls();
    assert(d.len() == 10);
    assert forall|i: int, j: int| 0 <= i < j < d.len() implies (#[trigger] d[i].nr.arm64 is Some
        ==> d[i].nr.arm64 != #[trigger] d[j].nr.arm64) && (d[i].nr.arm32 is Some ==> d[i].nr.arm32
        != d[j].nr.arm32) by {
        assert(i == 0 || i == 1 || i == 2 || i == 3 || i == 4 || i == 5 || i == 6 || i == 7 || i
            == 8);
        assert(j == 1 || j == 2 || j == 3 || j == 4 || j == 5 || j == 6 || j == 7 || j == 8 || j
            == 9);
    }
}

/// The last definition of `name` is in the first `k` when none after
/// them has that name.
proof fn lemma_last_def_prefix(defs: Seq<SyscallDefView>, name: Seq<char>, k: int)
    requires
        0 <= k <= defs.len(),
        forall|i: int| k <= i < defs.len() ==> #[trigger] defs[i].name != name,
    ensures
        last_def(defs, name) == last_def(defs.take(k), name),
    decreases defs.len(),
{
    if defs.len() > k {
        let p = defs.drop_last();
        assert forall|i: int| k <= i < p.len() implies #[trigger] p[i].name != name by {
            assert(p[i] == defs[i]);
        }
        lemma_last_def_prefix(p, name, k);
        assert(p.take(k) =~= defs.take(k));
    } else {
        assert(defs.take(k) =~= defs);
    }
}

/// A group found among the first `m` is found there in the whole table.
proof fn lemma_first_group_prefix(gs: Seq<SyscallGroupView>, name: Seq<char>, m: int)
    requires
        0 <= m <= gs.len(),
        first_group(gs.take(m), name) >= 0,
    ensures
        first_group(gs, name) == first_group(gs.take(m), name),
    decreases gs.len(),
{
    if gs.len() > m {
        let p = gs.drop_last();
        assert(p.take(m) =~= gs.take(m));
        lemma_first_group_prefix(p, name, m);
    } else {
        assert(gs.take(m) =~= gs);
    }
}

/// No group of the table has the name: it is not found.
proof fn lemma_first_group_none(gs: Seq<SyscallGroupView>, name: Seq<char>)
    requires
        forall|i: int| 0 <= i < gs.len() ==> #[trigger] gs[i].name != name,
    ensures
        first_group(gs, name) == -1,
    decreases gs.len(),
{
    if gs.len() > 0 {
        let p = gs.drop_last();
        assert forall|i: int| 0 <= i < p.len() implies #[trigger] p[i].name != name by {
            assert(p[i] == gs[i]);
        }
        lemma_first_group_none(p, name);
    }
}

/// The built-in group table holds together: every syscall a group lists
/// is defined in the built-in syscall table, every default watch group is
/// in the table, and each group names a flag parameter exactly when it
/// gives a mask.
pub proof fn lemma_catalog_groups_consistent()
    ensures
        forall|g: int, k: int|
            0 <= g < catalog_groups().len() && 0 <= k < catalog_groups()[g].syscalls.len()
                ==> #[trigger] last_def(catalog_syscalls(), catalog_groups()[g].syscalls[k]) >= 0,
        forall|d: int|
            0 <= d < catalog_default_groups().len() ==> #[trigger] first_group(
                catalog_groups(),
                catalog_default_groups()[d],
            ) >= 0,
        forall|g: int|
            0 <= g < catalog_groups().len() ==> (#[trigger] catalog_groups()[g].watch_flag_mask is Some)
                == (catalog_groups()[g].watch_flag_param is Some),
{
    let defs = catalog_syscalls();
    let gs = catalog_groups();
    reveal_strlit("openat");
    reveal_strlit("openat2");
    reveal_strlit("creat");
    reveal_strlit("mkdirat");
    reveal_strlit("mkdir");
    reveal_strlit("renameat");
    reveal_strlit("renameat2");
    reveal_strlit("rename");
    reveal_strlit("unlinkat");
    reveal_strlit("unlink");
    reveal_strlit("create");
    reveal_strlit("create_any");
    reveal_strlit("rename_");
    reveal_strlit("open_");
    reveal_strlit("delete");
    assert(gs.len() == 5);
    assert(defs.len() == 10);
    assert(defs[0].name == "openat"@ && "openat"@.len() == 6 && "openat"@[0] == 'o');
    assert(defs[1].name == "openat2"@ && "openat2"@.len() == 7 && "openat2"@[0] == 'o');
    assert(defs[2].name == "creat"@ && "creat"@.len() == 5 && "creat"@[0] == 'c');
    assert(defs[3].name == "mkdirat"@ && "mkdirat"@.len() == 7 && "mkdirat"@[0] == 'm');
    assert(defs[4].name == "mkdir"@ && "mkdir"@.len() == 5 && "mkdir"@[0] == 'm');
    assert(defs[5].name == "renameat"@ && "renameat"@.len() == 8 && "renameat"@[0] == 'r');
    assert(defs[6].name == "renameat2"@ && "renameat2"@.len() == 9 && "renameat2"@[0] == 'r');
    assert(defs[7].name == "rename"@ && "rename"@.len() == 6 && "rename"@[0] == 'r');
    assert(defs[8].name == "unlinkat"@ && "unlinkat"@.len() == 8 && "unlinkat"@[0] == 'u');
    assert(defs[9].name == "unlink"@ && "unlink"@.len() == 6 && "unlink"@[0] == 'u');
    assert(last_def(defs, "openat"@) == 0) by {
        assert forall|i: int| 1 <= i < defs.len() implies #[trigger] defs[i].name != "openat"@ by {
            assert(i == 1 || i == 2 || i == 3 || i == 4 || i == 5 || i == 6 || i == 7 || i == 8 || i == 9);
        }
        lemma_last_def_prefix(defs, "openat"@, 1);
        assert(defs.take(1).drop_last() =~= defs.take(0));
        assert(defs.take(1).last() == defs[0]);
    }
    assert(last_def(defs, "openat2"@) == 1) by {
        assert forall|i: int| 2 <= i < defs.len() implies #[trigger] defs[i].name != "openat2"@ by {
            assert(i == 2 || i == 3 || i == 4 || i == 5 || i == 6 || i == 7 || i == 8 || i == 9);
        }
        lemma_last_def_prefix(defs, "openat2"@, 2);
        assert(defs.take(2).drop_last() =~= defs.take(1));
        assert(defs.take(2).last() == defs[1]);
    }
    assert(last_def(defs, "creat"@) == 2) by {
        assert forall|i: int| 3 <= i < defs.len() implies #[trigger] defs[i].name != "creat"@ by {
            assert(i == 3 || i == 4 || i == 5 || i == 6 || i == 7 || i == 8 || i == 9);
        }
        lemma_last_def_prefix(defs, "creat"@, 3);
        assert(defs.take(3).drop_last() =~= defs.take(2));
        assert(defs.take(3).last() == defs[2]);
    }
    assert(last_def(defs, "mkdirat"@) == 3) by {
        assert forall|i: int| 4 <= i < defs.len() implies #[trigger] defs[i].name != "mkdirat"@ by {
            assert(i == 4 || i == 5 || i == 6 || i == 7 || i == 8 || i == 9);
        }
        lemma_last_def_prefix(defs, "mkdirat"@, 4);
        assert(defs.take(4).drop_last() =~= defs.take(3));
        assert(defs.take(4).last() == defs[3]);
    }
    assert(last_def(defs, "mkdir"@) == 4) by {
        assert forall|i: int| 5 <= i < defs.len() implies #[trigger] defs[i].name != "mkdir"@ by {
            assert(i == 5 || i == 6 || i == 7 || i == 8 || i == 9);
        }
        lemma_last_def_prefix(defs, "mkdir"@, 5);
        assert(defs.take(5).drop_last() =~= defs.take(4));
        assert(defs.take(5).last() == defs[4]);
    }
    assert(last_def(defs, "renameat"@) == 5) by {
        assert forall|i: int| 6 <= i < defs.len() implies #[trigger] defs[i].name != "renameat"@ by {
            assert(i == 6 || i == 7 || i == 8 || i == 9);
        }
        lemma_last_def_prefix(defs, "renameat"@, 6);
        assert(defs.take(6).drop_last() =~= defs.take(5));
        assert(defs.take(6).last() == defs[5]);
    }
    assert(last_def(defs, "renameat2"@) == 6) by {
        assert forall|i: int| 7 <= i < defs.len() implies #[trigger] defs[i].name != "renameat2"@ by {
            assert(i == 7 || i == 8 || i == 9);
        }
        lemma_last_def_prefix(defs, "renameat2"@, 7);
        assert(defs.take(7).drop_last() =~= defs.take(6));
        assert(defs.take(7).last() == defs[6]);
    }
    assert(last_def(defs, "rename"@) == 7) by {
        assert forall|i: int| 8 <= i < defs.len() implies #[trigger] defs[i].name != "rename"@ by {
            assert(i == 8 || i == 9);
        }
        lemma_last_def_prefix(defs, "rename"@, 8);
        assert(defs.take(8).drop_last() =~= defs.take(7));
        assert(defs.take(8).last() == defs[7]);
    }
    assert(last_def(defs, "unlinkat"@) == 8) by {
        assert forall|i: int| 9 <= i < defs.len() implies #[trigger] defs[i].name != "unlinkat"@ by {
            assert(i == 9);
        }
        lemma_last_def_prefix(defs, "unlinkat"@, 9);
        assert(defs.take(9).drop_last() =~= defs.take(8));
        assert(defs.take(9).last() == defs[8]);
    }
    assert(last_def(defs, "unlink"@) == 9) by {
        lemma_last_def_prefix(defs, "unlink"@, 10);
        assert(defs.take(10).drop_last() =~= defs.take(9));
        assert(defs.take(10).last() == defs[9]);
    }
    assert forall|g: int, k: int|
        0 <= g < gs.len() && 0 <= k < gs[g].syscalls.len() implies #[trigger] last_def(
        defs,
        gs[g].syscalls[k],
    ) >= 0 by {
        assert(g == 0 || g == 1 || g == 2 || g == 3 || g == 4);
    }
    assert(gs[0].name == "create"@ && "create"@.len() == 6 && "create"@[0] == 'c');
    assert(gs[1].name == "create_any"@ && "create_any"@.len() == 10 && "create_any"@[0] == 'c');
    assert(gs[2].name == "rename_"@ && "rename_"@.len() == 7 && "rename_"@[0] == 'r');
    assert(gs[3].name == "open_"@ && "open_"@.len() == 5 && "open_"@[0] == 'o');
    assert(gs[4].name == "delete"@ && "delete"@.len() == 6 && "delete"@[0] == 'd');
    assert(first_group(gs, "create"@) == 0) by {
        let t = gs.take(0);
        lemma_first_group_none(t, "create"@);
        assert(gs.take(1).drop_last() =~= t);
        assert(gs.take(1).last() == gs[0]);
        lemma_first_group_prefix(gs, "create"@, 1);
    }
    assert(first_group(gs, "create_any"@) == 1) by {
        let t = gs.take(1);
        assert forall|i: int| 0 <= i < t.len() implies #[trigger] t[i].name != "create_any"@ by {
            assert(t[i] == gs[i]);
            assert(i == 0);
        }
        lemma_first_group_none(t, "create_any"@);
        assert(gs.take(2).drop_last() =~= t);
        assert(gs.take(2).last() == gs[1]);
        lemma_first_group_prefix(gs, "create_any"@, 2);
    }
    assert(first_group(gs, "rename_"@) == 2) by {
        let t = gs.take(2);
        assert forall|i: int| 0 <= i < t.len() implies #[trigger] t[i].name != "rename_"@ by {
            assert(t[i] == gs[i]);
            assert(i == 0 || i == 1);
        }
        lemma_first_group_none(t, "rename_"@);
        assert(gs.take(3).drop_last() =~= t);
        assert(gs.take(3).last() == gs[2]);
        lemma_first_group_prefix(gs, "rename_"@, 3);
    }
    assert(first_group(gs, "delete"@) == 4) by {
        let t = gs.take(4);
        assert forall|i: int| 0 <= i < t.len() implies #[trigger] t[i].name != "delete"@ by {
            assert(t[i] == gs[i]);
            assert(i == 0 || i == 1 || i == 2 || i == 3);
        }
        lemma_first_group_none(t, "delete"@);
        assert(gs.take(5).drop_last() =~= t);
        assert(gs.take(5).last() == gs[4]);
        lemma_first_group_prefix(gs, "delete"@, 5);
    }
    assert forall|d: int| 0 <= d < catalog_default_groups().len() implies #[trigger] first_group(
        gs,
        catalog_default_groups()[d],
    ) >= 0 by {
        assert(d == 0 || d == 1 || d == 2 || d == 3);
    }
    assert forall|g: int| 0 <= g < gs.len() implies (#[trigger] gs[g].watch_flag_mask is Some) == (
    gs[g].watch_flag_param is Some) by {
        assert(g == 0 || g == 1 || g == 2 || g == 3 || g == 4);
    }
}

impl Config {
    /// The configuration of a fresh installation: no whitelist, no
    /// basenames, the default watch groups, printing off.
    pub fn factory_default() -> (r: Config)
        ensures
            r.whitelist.uid@.len() == 0,
            r.whitelist.pid@.len() == 0,
            r.watch matches Some(w) && w.basenames@.len() == 0 && strs_view(w.groups@)
                == catalog_default_groups(),
            r.print is None,
    {
        Config {
            whitelist: Whitelist { uid: Vec::new(), pid: Vec::new() },
            watch: Some(WatchConfig { basenames: Vec::new(), groups: default_groups() }),
            print: None,
        }
    }

    /// Checks the configuration against the built-in catalog and computes
    /// what the kernel program is loaded with. The entries of each ABI
    /// come out ordered by syscall number, no number twice; they are those
    /// of the syscalls the selected groups list, flagged print and/or
    /// watch by the kind of group that lists them, with the registers and
    /// mask their watch groups call for.
    pub fn validate(&self) -> (r: Result<ValidatedConfig, ConfigError>)
        ensures
            r matches Ok(v) ==> entries_match(
                v.syscall_args_64@,
                catalog_syscalls(),
                catalog_groups(),
                print_groups_of(self.print),
                watch_groups_of(self.watch),
                true,
            ) && entries_match(
                v.syscall_args_32@,
                catalog_syscalls(),
                catalog_groups(),
                print_groups_of(self.print),
                watch_groups_of(self.watch),
                false,
            ),
            r matches Ok(v) ==> sorted_by_nr(v.syscall_args_64@) && nrs_distinct(
                v.syscall_args_64@,
            ) && sorted_by_nr(v.syscall_args_32@) && nrs_distinct(v.syscall_args_32@),
            reports_outcome(
                r,
                rules_outcome(
                    catalog_syscalls(),
                    catalog_groups(),
                    print_groups_of(self.print),
                    watch_groups_of(self.watch),
                    basenames_of(self.watch),
                ),
            ),
    {
        let defs = syscalls();
        let groups = syscall_groups();
        let empty: Vec<String> = Vec::new();
        proof {
            lemma_catalog_nrs_distinct();
            lemma_outcome_entries(
                catalog_syscalls(),
                catalog_groups(),
                print_groups_of(self.print),
                watch_groups_of(self.watch),
                basenames_of(self.watch),
            );
            lemma_outcome_nrs(
                catalog_syscalls(),
                catalog_groups(),
                print_groups_of(self.print),
                watch_groups_of(self.watch),
                basenames_of(self.watch),
            );
        }
        validate_rules(
            defs.as_slice(),
            groups.as_slice(),
            print_group_list(&self.print, &empty),
            watch_group_list(&self.watch, &empty),
            basename_list(&self.watch, &empty),
        )
    }
}

} // verus!
