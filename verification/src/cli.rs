//! Command-line options of the daemon.
use vstd::prelude::*;

use crate::text::str_eq;

verus! {

/// Options the daemon runs with.
#[derive(Clone, Copy, Debug, PartialEq, Eq, Structural)]
pub struct CliArgs {
    pub verbosity: u8,
    pub selftest: bool,
    pub loadtest: bool,
}

/// What the command line asks for.
pub enum CliOutcome {
    /// Run with these options.
    Run(CliArgs),
    /// Print the usage text and exit successfully.
    Help,
    /// Report this unknown option and exit with failure.
    Unknown(String),
}

/// Options after the first `n` arguments, or the first argument that
/// stops parsing (index and whether it asked for help).
pub open spec fn cli_state(args: Seq<Seq<char>>) -> Result<CliArgs, (int, bool)>
    decreases args.len(),
{
    if args.len() == 0 {
        Ok(CliArgs { verbosity: 1, selftest: false, loadtest: false })
    } else {
        match cli_state(args.drop_last()) {
            Err(e) => Err(e),
            Ok(c) => {
                let a = args.last();
                if a == "--selftest"@ {
                    Ok(CliArgs { selftest: true, ..c })
                } else if a == "--loadtest"@ {
                    Ok(CliArgs { loadtest: true, ..c })
                } else if a == "-q"@ {
                    Ok(CliArgs { verbosity: 0, ..c })
                } else if a == "-vv"@ {
                    Ok(CliArgs { verbosity: 3, ..c })
                } else if a == "-v"@ {
                    Ok(CliArgs { verbosity: 2, ..c })
                } else if a == "-h"@ || a == "--help"@ {
                    Err((args.len() - 1, true))
                } else {
                    Err((args.len() - 1, false))
                }
            },
        }
    }
}

/// The verbosity an option selects, as the usage text lists them: `-q`
/// quiet (0), `-v` info (2), `-vv` debug (3); none for other arguments.
pub open spec fn verbosity_option(a: Seq<char>) -> Option<u8> {
    if a == "-q"@ {
        Some(0u8)
    } else if a == "-v"@ {
        Some(2u8)
    } else if a == "-vv"@ {
        Some(3u8)
    } else {
        None
    }
}

/// An option the daemon runs with: a verbosity, `--selftest` or
/// `--loadtest`.
pub open spec fn run_option(a: Seq<char>) -> bool {
    a == "--selftest"@ || a == "--loadtest"@ || verbosity_option(a) is Some
}

/// The command line runs the daemon exactly when every argument is an
/// option it runs with. Then the verbosity is the one the last verbosity
/// option selects (1 when there is none), and self test and load test are
/// on exactly when their options appear. Otherwise parsing stops at the
/// first other argument, asking for help exactly when that is `-h` or
/// `--help`.
pub proof fn lemma_cli_options(v: Seq<Seq<char>>)
    ensures
        cli_state(v) is Ok <==> forall|k: int| 0 <= k < v.len() ==> #[trigger] run_option(v[k]),
        cli_state(v) matches Ok(c) ==> {
            &&& c.selftest == exists|k: int| 0 <= k < v.len() && #[trigger] v[k] == "--selftest"@
            &&& c.loadtest == exists|k: int| 0 <= k < v.len() && #[trigger] v[k] == "--loadtest"@
            &&& forall|k: int|
                0 <= k < v.len() && #[trigger] verbosity_option(v[k]) is Some && (forall|j: int|
                    k < j < v.len() ==> verbosity_option(#[trigger] v[j]) is None) ==> c.verbosity
                    == verbosity_option(v[k])->Some_0
            &&& (forall|k: int| 0 <= k < v.len() ==> verbosity_option(#[trigger] v[k]) is None)
                ==> c.verbosity == 1
        },
        cli_state(v) matches Err((i, help)) ==> {
            &&& 0 <= i < v.len()
            &&& !run_option(v[i])
            &&& forall|k: int| 0 <= k < i ==> #[trigger] run_option(v[k])
            &&& help == (v[i] == "-h"@ || v[i] == "--help"@)
        },
    decreases v.len(),
{
    reveal_strlit("-q");
    reveal_strlit("-v");
    reveal_strlit("-vv");
    reveal_strlit("-h");
    reveal_strlit("--help");
    reveal_strlit("--selftest");
    reveal_strlit("--loadtest");
    assert("-q"@[1] == 'q' && "-v"@[1] == 'v' && "-vv"@.len() == 3 && "-h"@[1] == 'h');
    assert("--selftest"@[2] == 's' && "--loadtest"@[2] == 'l' && "--help"@.len() == 6);
    assert("--selftest"@.len() == 10 && "--loadtest"@.len() == 10);
    if v.len() > 0 {
        let p = v.drop_last();
        let a = v.last();
        let n = v.len() - 1;
        lemma_cli_options(p);
        assert forall|k: int| 0 <= k < n implies #[trigger] v[k] == p[k] by {}
        match cli_state(p) {
            Err((i, h)) => {
                assert(v[i] == p[i]);
                assert forall|k: int| 0 <= k < i implies #[trigger] run_option(v[k]) by {
                    assert(v[k] == p[k]);
                    assert(run_option(p[k]));
                }
                assert(!run_option(p[i]));
                assert(!(forall|k: int| 0 <= k < v.len() ==> #[trigger] run_option(v[k])));
            },
            Ok(c) => {
                assert(forall|k: int| 0 <= k < n ==> #[trigger] run_option(p[k]));
                if run_option(a) {
                    assert forall|k: int| 0 <= k < v.len() implies #[trigger] run_option(v[k]) by {
                        if k < n {
                            assert(run_option(p[k]));
                        }
                    }
                    let c2 = cli_state(v)->Ok_0;
                    if a == "--selftest"@ {
                        assert(v[n] == "--selftest"@);
                    } else {
                        if exists|k: int| 0 <= k < v.len() && #[trigger] v[k] == "--selftest"@ {
                            let k = choose|k: int| 0 <= k < v.len() && #[trigger] v[k] == "--selftest"@;
                            assert(k < n && p[k] == "--selftest"@);
                        }
                        if exists|k: int| 0 <= k < p.len() && #[trigger] p[k] == "--selftest"@ {
                            let k = choose|k: int| 0 <= k < p.len() && #[trigger] p[k] == "--selftest"@;
                            assert(v[k] == "--selftest"@);
                        }
                    }
                    if a == "--loadtest"@ {
                        assert(v[n] == "--loadtest"@);
                    } else {
                        if exists|k: int| 0 <= k < v.len() && #[trigger] v[k] == "--loadtest"@ {
                            let k = choose|k: int| 0 <= k < v.len() && #[trigger] v[k] == "--loadtest"@;
                            assert(k < n && p[k] == "--loadtest"@);
                        }
                        if exists|k: int| 0 <= k < p.len() && #[trigger] p[k] == "--loadtest"@ {
                            let k = choose|k: int| 0 <= k < p.len() && #[trigger] p[k] == "--loadtest"@;
                            assert(v[k] == "--loadtest"@);
                        }
                    }
                    if verbosity_option(a) is Some {
                        assert(c2.verbosity == verbosity_option(a)->Some_0);
                        assert forall|k: int|
                            0 <= k < v.len() && #[trigger] verbosity_option(v[k]) is Some && (forall|j: int|
                                k < j < v.len() ==> verbosity_option(#[trigger] v[j]) is None) implies c2.verbosity
                            == verbosity_option(v[k])->Some_0 by {
                            if k < n {
                                assert(verbosity_option(v[n]) is Some);
                            }
                        }
                    } else {
                        assert(c2.verbosity == c.verbosity);
                        assert forall|k: int|
                            0 <= k < v.len() && #[trigger] verbosity_option(v[k]) is Some && (forall|j: int|
                                k < j < v.len() ==> verbosity_option(#[trigger] v[j]) is None) implies c2.verbosity
                            == verbosity_option(v[k])->Some_0 by {
                            assert(k < n);
                            assert(p[k] == v[k]);
                            assert forall|j: int| k < j < p.len() implies verbosity_option(#[trigger] p[j]) is None by {
                                assert(p[j] == v[j]);
                            }
                        }
                        if forall|k: int| 0 <= k < v.len() ==> verbosity_option(#[trigger] v[k]) is None {
                            assert forall|k: int| 0 <= k < p.len() implies verbosity_option(#[trigger] p[k]) is None by {
                                assert(p[k] == v[k]);
                            }
                        }
                    }
                } else {
                    assert(!run_option(v[n]));
                }
            },
        }
    }
}

/// Parses the daemon's arguments (program name excluded). Options are
/// taken in order, a later verbosity option overriding an earlier one;
/// `-h`/`--help` or an unknown option ends parsing.
pub fn parse_cli(args: &[String]) -> (r: CliOutcome)
    ensures
        ({
            let v = args@.map_values(|s: String| s@);
            match cli_state(v) {
                Ok(c) => r == CliOutcome::Run(c),
                Err((i, true)) => r is Help,
                Err((i, false)) => r matches CliOutcome::Unknown(s) && s@ == v[i],
            }
        }),
{
    let ghost v = args@.map_values(|s: String| s@);
    let mut c = CliArgs { verbosity: 1, selftest: false, loadtest: false };
    let mut i: usize = 0;
    while i < args.len()
        invariant
            i <= args@.len(),
            v == args@.map_values(|s: String| s@),
            cli_state(v.take(i as int)) == Ok::<CliArgs, (int, bool)>(c),
        decreases args@.len() - i,
    {
        proof {
            assert(v.take(i + 1).drop_last() =~= v.take(i as int));
            assert(v.take(i + 1).last() == args@[i as int]@);
        }
        let a = args[i].as_str();
        if str_eq(a, "--selftest") {
            c.selftest = true;
        } else if str_eq(a, "--loadtest") {
            c.loadtest = true;
        } else if str_eq(a, "-q") {
            c.verbosity = 0;
        } else if str_eq(a, "-vv") {
            c.verbosity = 3;
        } else if str_eq(a, "-v") {
            c.verbosity = 2;
        } else if str_eq(a, "-h") || str_eq(a, "--help") {
            proof {
                lemma_cli_stops(v, i as int + 1);
            }
            return CliOutcome::Help;
        } else {
            proof {
                lemma_cli_stops(v, i as int + 1);
            }
            return CliOutcome::Unknown(args[i].clone());
        }
        i += 1;
    }
    proof {
        assert(v.take(i as int) =~= v);
    }
    CliOutcome::Run(c)
}

/// Once parsing has stopped on a prefix, later arguments do not matter.
proof fn lemma_cli_stops(v: Seq<Seq<char>>, n: int)
    requires
        0 <= n <= v.len(),
        cli_state(v.take(n)) is Err,
    ensures
        cli_state(v) == cli_state(v.take(n)),
    decreases v.len() - n,
{
    if n < v.len() {
        assert(v.take(n + 1).drop_last() =~= v.take(n));
        lemma_cli_stops(v, n + 1);
    } else {
        assert(v.take(n) =~= v);
    }
}

} // verus!
