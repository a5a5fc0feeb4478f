//! The configuration as the module manager stores it: one JSON text per
//! key, read back into a [`Config`] and written from one.
use vstd::prelude::*;

use crate::catalog::{catalog_default_groups, default_groups, strs_view};
use crate::config::{Config, PrintConfig, WatchConfig, Whitelist};
use crate::elf::{lossy_string, utf8_lossy};
use crate::text::{trim_text, trim_ws};

verus! {

/// The list of strings a JSON text holds, if it is one
/// (`serde_json::from_str::<Vec<String>>`).
pub uninterp spec fn json_str_list(s: Seq<char>) -> Option<Seq<Seq<char>>>;

/// The list of `u32` a JSON text holds, if it is one
/// (`serde_json::from_str::<Vec<u32>>`).
pub uninterp spec fn json_u32_list(s: Seq<char>) -> Option<Seq<u32>>;

/// JSON text of a list of strings (`serde_json::to_string`).
pub uninterp spec fn str_list_json(v: Seq<Seq<char>>) -> Seq<char>;

/// JSON text of a list of `u32` (`serde_json::to_string`).
pub uninterp spec fn u32_list_json(v: Seq<u32>) -> Seq<char>;

/// Reads a JSON array of strings with `serde_json::from_str`; `None`
/// when the text is not one. The result depends on the text alone.
#[verifier::external_body]
fn parse_str_list(s: &str) -> (r: Option<Vec<String>>)
    ensures
        r matches Some(v) ==> json_str_list(s@) == Some(strs_view(v@)),
        r is None ==> json_str_list(s@) is None,
{
    serde_json::from_str::<Vec<String>>(s).ok()
}

/// Reads a JSON array of `u32` with `serde_json::from_str`; `None` when
/// the text is not one. The result depends on the text alone.
#[verifier::external_body]
fn parse_u32_list(s: &str) -> (r: Option<Vec<u32>>)
    ensures
        r matches Some(v) ==> json_u32_list(s@) == Some(v@),
        r is None ==> json_u32_list(s@) is None,
{
    serde_json::from_str::<Vec<u32>>(s).ok()
}

/// Writes a list of strings as JSON with `serde_json::to_string`, which
/// cannot fail for strings. Reading the text back with `from_str` gives
/// the same list (strings are escaped as they are read); an empty list is
/// written `[]`.
#[verifier::external_body]
fn str_list_text(v: &Vec<String>) -> (r: String)
    ensures
        r@ == str_list_json(strs_view(v@)),
        json_str_list(r@) == Some(strs_view(v@)),
        v@.len() == 0 ==> r@ == "[]"@,
{
    serde_json::to_string(v).unwrap_or_default()
}

/// Writes a list of `u32` as JSON with `serde_json::to_string`, which
/// cannot fail for integers. Reading the text back with `from_str` gives
/// the same list.
#[verifier::external_body]
fn u32_list_text(v: &Vec<u32>) -> (r: String)
    ensures
        r@ == u32_list_json(v@),
        json_u32_list(r@) == Some(v@),
{
    serde_json::to_string(v).unwrap_or_default()
}

/// The process whitelist kept in its own file: the list of `u32` the
/// text holds as JSON, none when it holds no such list.
pub fn pid_list(text: &str) -> (r: Vec<u32>)
    ensures
        r@ == match json_u32_list(text@) {
            Some(a) => a,
            None => seq![],
        },
{
    match parse_u32_list(text) {
        Some(v) => v,
        None => Vec::new(),
    }
}

/// The process whitelist as JSON text, for its own file.
pub fn pid_text(v: &Vec<u32>) -> (r: String)
    ensures
        r@ == u32_list_json(v@),
        json_u32_list(r@) == Some(v@),
{
    u32_list_text(v)
}

/// A stored value as the module manager prints it: the output decoded
/// (invalid UTF-8 replaced) and trimmed; nothing when that is empty.
pub open spec fn stored_text(out: Seq<u8>) -> Option<Seq<char>> {
    let t = trim_ws(utf8_lossy(out));
    if t.len() > 0 {
        Some(t)
    } else {
        None
    }
}

/// Reads the value of a key from the module manager's output.
pub fn setting_value(out: &[u8]) -> (r: Option<String>)
    ensures
        match r {
            Some(s) => stored_text(out@) == Some(s@),
            None => stored_text(out@) is None,
        },
{
    let text = lossy_string(out);
    let t = trim_text(text.as_str());
    if t.is_empty() {
        None
    } else {
        Some(t.to_owned())
    }
}

/// The stored values of the configuration keys, each absent when the key
/// is unset or could not be read.
pub struct StoredSettings {
    pub basenames: Option<String>,
    pub groups: Option<String>,
    pub uid: Option<String>,
    pub print: Option<String>,
}

/// A stored list of strings, when the value is set and is one.
pub open spec fn stored_strs(v: Option<String>) -> Option<Seq<Seq<char>>> {
    match v {
        Some(t) => json_str_list(t@),
        None => None,
    }
}

/// A stored list of `u32`, when the value is set and is one.
pub open spec fn stored_u32s(v: Option<String>) -> Option<Seq<u32>> {
    match v {
        Some(t) => json_u32_list(t@),
        None => None,
    }
}

/// Reads an optional stored list of strings.
fn read_strs(v: &Option<String>) -> (r: Option<Vec<String>>)
    ensures
        match r {
            Some(a) => stored_strs(*v) == Some(strs_view(a@)),
            None => stored_strs(*v) is None,
        },
{
    match v {
        Some(t) => parse_str_list(t.as_str()),
        None => None,
    }
}

/// The setting keys, in the order they are written.
pub open spec fn setting_keys() -> Seq<Seq<char>> {
    seq!["watch.basenames"@, "watch.groups"@, "whitelist.uid"@, "print.groups"@]
}

/// What `from_settings` makes of the stored values: a readable list
/// replaces the default one, an empty print list turns printing off, and
/// the process whitelist is `pids`.
pub open spec fn read_from(s: StoredSettings, pids: Seq<u32>, r: Config) -> bool {
    &&& r.watch matches Some(w) && strs_view(w.basenames@) == (match stored_strs(s.basenames) {
        Some(a) => a,
        None => seq![],
    }) && strs_view(w.groups@) == (match stored_strs(s.groups) {
        Some(a) => a,
        None => catalog_default_groups(),
    })
    &&& r.whitelist.uid@ == (match stored_u32s(s.uid) {
        Some(a) => a,
        None => seq![],
    })
    &&& r.whitelist.pid@ == pids
    &&& match stored_strs(s.print) {
        Some(a) => if a.len() == 0 {
            r.print is None
        } else {
            r.print matches Some(p) && strs_view(p.groups@) == a
        },
        None => r.print is None,
    }
}

/// The stored values are the texts of `kv`, in the order `settings`
/// writes them.
pub open spec fn stored_from(s: StoredSettings, kv: Seq<(String, String)>) -> bool {
    &&& kv.len() == 4
    &&& s.basenames == Some(kv[0].1)
    &&& s.groups == Some(kv[1].1)
    &&& s.uid == Some(kv[2].1)
    &&& s.print == Some(kv[3].1)
}

/// Reading back each text of `kv` gives the lists of `c`.
pub open spec fn written_as(c: Config, kv: Seq<(String, String)>) -> bool {
    &&& kv.len() == 4
    &&& json_str_list(kv[0].1@) == Some(
        match c.watch {
            Some(w) => strs_view(w.basenames@),
            None => seq![],
        },
    )
    &&& json_str_list(kv[1].1@) == Some(
        match c.watch {
            Some(w) => strs_view(w.groups@),
            None => catalog_default_groups(),
        },
    )
    &&& json_u32_list(kv[2].1@) == Some(c.whitelist.uid@)
    &&& json_str_list(kv[3].1@) == Some(
        match c.print {
            Some(p) => strs_view(p.groups@),
            None => seq![],
        },
    )
}

/// A configuration written with `settings` and read back with
/// `from_settings` (with its own process whitelist) is the same
/// configuration, as long as watching is on and printing is either off or
/// names a group: those two are the forms reading produces.
pub proof fn lemma_settings_read_back(c: Config, kv: Seq<(String, String)>, s: StoredSettings, r: Config)
    requires
        written_as(c, kv),
        stored_from(s, kv),
        read_from(s, c.whitelist.pid@, r),
        c.watch is Some,
        c.print matches Some(p) ==> p.groups@.len() > 0,
    ensures
        r.watch matches Some(rw) && (c.watch matches Some(cw) && strs_view(rw.basenames@)
            == strs_view(cw.basenames@) && strs_view(rw.groups@) == strs_view(cw.groups@)),
        r.whitelist.uid@ == c.whitelist.uid@,
        r.whitelist.pid@ == c.whitelist.pid@,
        match c.print {
            Some(cp) => r.print matches Some(rp) && strs_view(rp.groups@) == strs_view(cp.groups@),
            None => r.print is None,
        },
{
    match c.print {
        Some(cp) => {
            assert(strs_view(cp.groups@).len() == cp.groups@.len());
        },
        None => {},
    }
}

impl Config {
    /// The configuration the stored values describe, starting from the
    /// factory default: a readable list replaces the default one, an
    /// empty print list turns printing off, and the process whitelist
    /// comes from `pids` (it is not stored with the others).
    pub fn from_settings(s: &StoredSettings, pids: Vec<u32>) -> (r: Config)
        ensures
            read_from(*s, pids@, r),
    {
        let basenames = match read_strs(&s.basenames) {
            Some(a) => a,
            None => Vec::new(),
        };
        let groups = match read_strs(&s.groups) {
            Some(a) => a,
            None => default_groups(),
        };
        let uid = match &s.uid {
            Some(t) => match parse_u32_list(t.as_str()) {
                Some(a) => a,
                None => Vec::new(),
            },
            None => Vec::new(),
        };
        let print = match read_strs(&s.print) {
            Some(a) => if a.len() == 0 {
                None
            } else {
                Some(PrintConfig { groups: a })
            },
            None => None,
        };
        proof {
            assert(strs_view(Seq::<String>::empty()) =~= Seq::<Seq<char>>::empty());
        }
        Config {
            whitelist: Whitelist { uid, pid: pids },
            watch: Some(WatchConfig { basenames, groups }),
            print,
        }
    }

    /// The key/value pairs the configuration is stored as, in the order
    /// they are written: watched basenames and groups (none and the
    /// default groups when watching is off), whitelisted uids, and print
    /// groups (`[]` when printing is off). The process whitelist is kept
    /// elsewhere.
    pub fn settings(&self) -> (r: Vec<(String, String)>)
        ensures
            r@.len() == 4,
            forall|i: int| 0 <= i < 4 ==> #[trigger] r@[i].0@ == setting_keys()[i],
            r@[0].1@ == match self.watch {
                Some(w) => str_list_json(strs_view(w.basenames@)),
                None => "[]"@,
            },
            r@[1].1@ == match self.watch {
                Some(w) => str_list_json(strs_view(w.groups@)),
                None => str_list_json(catalog_default_groups()),
            },
            r@[2].1@ == u32_list_json(self.whitelist.uid@),
            r@[3].1@ == match self.print {
                Some(p) => str_list_json(strs_view(p.groups@)),
                None => "[]"@,
            },
            written_as(*self, r@),
    {
        let none: Vec<String> = Vec::new();
        proof {
            assert(strs_view(none@) =~= Seq::<Seq<char>>::empty());
        }
        let (b, g) = match &self.watch {
            Some(w) => (str_list_text(&w.basenames), str_list_text(&w.groups)),
            None => (str_list_text(&none), str_list_text(&default_groups())),
        };
        let u = u32_list_text(&self.whitelist.uid);
        let p = match &self.print {
            Some(p) => str_list_text(&p.groups),
            None => str_list_text(&none),
        };
        let mut r: Vec<(String, String)> = Vec::new();
        r.push(("watch.basenames".to_owned(), b));
        r.push(("watch.groups".to_owned(), g));
        r.push(("whitelist.uid".to_owned(), u));
        r.push(("print.groups".to_owned(), p));
        proof {
            assert(r@[0].0@ == setting_keys()[0]);
            assert(r@[1].0@ == setting_keys()[1]);
            assert(r@[2].0@ == setting_keys()[2]);
            assert(r@[3].0@ == setting_keys()[3]);
        }
        r
    }
}

} // verus!
