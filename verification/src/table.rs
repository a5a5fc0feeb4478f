//! A configuration that carries its own syscall table and group table,
//! validated with the same rules as the catalog-based one.
use vstd::prelude::*;

use crate::catalog::{defs_view, groups_view, SyscallDef, SyscallGroup};
use crate::config::{
    basename_list, basenames_of, print_group_list, print_groups_of, watch_group_list,
    watch_groups_of, ConfigError, PrintConfig, ValidatedConfig, WatchConfig, Whitelist,
};
use crate::rules::{
    entries_match, lemma_nr_sorted, lemma_outcome_entries, lemma_outcome_nrs, nrs_distinct, reports_outcome, rules_outcome,
    sorted_by_nr, table_nrs_distinct, validate_rules,
};

verus! {

/// A configuration with an explicit syscall table.
#[derive(Debug)]
pub struct Config {
    pub whitelist: Whitelist,
    pub syscall: Vec<SyscallDef>,
    pub syscall_groups: Vec<SyscallGroup>,
    pub print: Option<PrintConfig>,
    pub watch: Option<WatchConfig>,
}

impl Config {
    /// Checks the configuration against its own tables and computes what
    /// the kernel program is loaded with. The entries of each ABI come out
    /// ordered by syscall number; when the table gives no two syscalls one
    /// number, no number occurs twice. The entries are those of the
    /// syscalls the selected groups list, flagged print and/or watch by the
    /// kind of group that lists them, with the registers and mask their
    /// watch groups call for.
    pub fn validate(&self) -> (r: Result<ValidatedConfig, ConfigError>)
        ensures
            r matches Ok(v) ==> entries_match(
                v.syscall_args_64@,
                defs_view(self.syscall@),
                groups_view(self.syscall_groups@),
                print_groups_of(self.print),
                watch_groups_of(self.watch),
                true,
            ) && entries_match(
                v.syscall_args_32@,
                defs_view(self.syscall@),
                groups_view(self.syscall_groups@),
                print_groups_of(self.print),
                watch_groups_of(self.watch),
                false,
            ),
            r matches Ok(v) ==> sorted_by_nr(v.syscall_args_64@) && sorted_by_nr(
                v.syscall_args_32@,
            ),
            table_nrs_distinct(defs_view(self.syscall@)) ==> (r matches Ok(v) ==> nrs_distinct(
                v.syscall_args_64@,
            ) && nrs_distinct(v.syscall_args_32@)),
            reports_outcome(
                r,
                rules_outcome(
                    defs_view(self.syscall@),
                    groups_view(self.syscall_groups@),
                    print_groups_of(self.print),
                    watch_groups_of(self.watch),
                    basenames_of(self.watch),
                ),
            ),
    {
        let empty: Vec<String> = Vec::new();
        proof {
            let o = rules_outcome(
                defs_view(self.syscall@),
                groups_view(self.syscall_groups@),
                print_groups_of(self.print),
                watch_groups_of(self.watch),
                basenames_of(self.watch),
            );
            lemma_outcome_entries(
                defs_view(self.syscall@),
                groups_view(self.syscall_groups@),
                print_groups_of(self.print),
                watch_groups_of(self.watch),
                basenames_of(self.watch),
            );
            if let Ok(out) = o {
                lemma_nr_sorted(out.args64);
                lemma_nr_sorted(out.args32);
            }
            if table_nrs_distinct(defs_view(self.syscall@)) {
                lemma_outcome_nrs(
                    defs_view(self.syscall@),
                    groups_view(self.syscall_groups@),
                    print_groups_of(self.print),
                    watch_groups_of(self.watch),
                    basenames_of(self.watch),
                );
            }
        }
        validate_rules(
            self.syscall.as_slice(),
            self.syscall_groups.as_slice(),
            print_group_list(&self.print, &empty),
            watch_group_list(&self.watch, &empty),
            basename_list(&self.watch, &empty),
        )
    }
}

} // verus!
