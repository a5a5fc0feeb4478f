//! Decisions of the control socket: reading one request line, telling the
//! commands apart, the window of events a client asks for, checking a
//! configuration a client sends, answering a reload request, the reply
//! lines, and what the client makes of a reply.
use vstd::prelude::*;

use crate::catalog::{catalog_groups, catalog_syscalls};
use crate::config::{basenames_of, print_groups_of, watch_groups_of, Config, ConfigError};
use crate::rules::{fault_message, rules_outcome};
use crate::text::{
    message3, push_char, push_str, str_eq, trim_end_text, trim_end_ws, trim_text, trim_ws,
};
use crate::base64::{b64_encode, base64_decode, base64_encode, join_sextets, sextets};
use crate::elf::{lossy_string, utf8_lossy};
use crate::events::{dec_nat, fmt_u64};
use serde_json::Value;

verus! {

/// A command a client sends in the `cmd` field of its request.
#[derive(Debug)]
pub enum Command {
    Ping,
    Status,
    Events,
    Clear,
    ConfigGet,
    ConfigSet,
    Reload,
    Sync,
    /// Any other name, kept for the error reply.
    Unknown(String),
}

/// Tells the commands apart; `config-get`/`get-config` and
/// `set-config`/`config-set` are aliases.
pub fn classify(cmd: &str) -> (r: Command)
    ensures
        (cmd@ == "ping"@) <==> r is Ping,
        (cmd@ == "status"@) <==> r is Status,
        (cmd@ == "events"@) <==> r is Events,
        (cmd@ == "clear"@) <==> r is Clear,
        (cmd@ == "config-get"@ || cmd@ == "get-config"@) <==> r is ConfigGet,
        (cmd@ == "set-config"@ || cmd@ == "config-set"@) <==> r is ConfigSet,
        (cmd@ == "reload"@) <==> r is Reload,
        (cmd@ == "sync"@) <==> r is Sync,
        r matches Command::Unknown(s) ==> s@ == cmd@,
{
    proof {
        reveal_strlit("ping");
        reveal_strlit("status");
        reveal_strlit("events");
        reveal_strlit("clear");
        reveal_strlit("config-get");
        reveal_strlit("get-config");
        reveal_strlit("set-config");
        reveal_strlit("config-set");
        reveal_strlit("reload");
        reveal_strlit("sync");
        assert("ping"@.len() == 4 && "ping"@[0] == 'p');
        assert("sync"@.len() == 4 && "sync"@[0] == 's');
        assert("status"@.len() == 6 && "status"@[0] == 's');
        assert("events"@.len() == 6 && "events"@[0] == 'e');
        assert("reload"@.len() == 6 && "reload"@[0] == 'r');
        assert("clear"@.len() == 5);
        assert("config-get"@.len() == 10 && "config-get"@[0] == 'c' && "config-get"@[7] == 'g');
        assert("config-set"@.len() == 10 && "config-set"@[0] == 'c' && "config-set"@[7] == 's');
        assert("get-config"@.len() == 10 && "get-config"@[0] == 'g');
        assert("set-config"@.len() == 10 && "set-config"@[0] == 's');
    }
    if str_eq(cmd, "ping") {
        Command::Ping
    } else if str_eq(cmd, "status") {
        Command::Status
    } else if str_eq(cmd, "events") {
        Command::Events
    } else if str_eq(cmd, "clear") {
        Command::Clear
    } else if str_eq(cmd, "config-get") || str_eq(cmd, "get-config") {
        Command::ConfigGet
    } else if str_eq(cmd, "set-config") || str_eq(cmd, "config-set") {
        Command::ConfigSet
    } else if str_eq(cmd, "reload") {
        Command::Reload
    } else if str_eq(cmd, "sync") {
        Command::Sync
    } else {
        Command::Unknown(cmd.to_owned())
    }
}

/// Events returned when a request names no limit.
pub const DEFAULT_LIMIT: u64 = 500;

/// Most events one reply carries.
pub const MAX_LIMIT: u64 = 2000;

/// The window of an `events` request: events after `after` (0 when not
/// given), at most `limit` of them (500 when not given, never above 2000).
pub fn events_window(after: Option<u64>, limit: Option<u64>) -> (r: (u64, usize))
    ensures
        r.0 == match after {
            Some(a) => a,
            None => 0,
        },
        r.1 == ({
            let l = match limit {
                Some(l) => l,
                None => DEFAULT_LIMIT,
            };
            if l < MAX_LIMIT {
                l
            } else {
                MAX_LIMIT
            }
        }),
{
    let a = match after {
        Some(a) => a,
        None => 0,
    };
    let l = match limit {
        Some(l) => l,
        None => DEFAULT_LIMIT,
    };
    let l = if l < MAX_LIMIT {
        l
    } else {
        MAX_LIMIT
    };
    (a, l as usize)
}

/// Longest request line, in bytes of its text.
pub const MAX_LINE: usize = 8192;

/// A request line being read byte by byte: each byte is taken as the
/// character of the same number, and `len` is the text's length in UTF-8.
pub struct RequestLine {
    pub text: String,
    pub len: usize,
}

/// UTF-8 length of one character.
pub open spec fn char_width(c: char) -> nat {
    vstd::utf8::encode_scalar(c as u32).len()
}

/// What to do after a byte of the request line.
#[derive(Clone, Copy, Debug, PartialEq, Eq, Structural)]
pub enum LineStep {
    /// Read another byte.
    More,
    /// The line ended with this newline.
    Done,
    /// The line grew past `MAX_LINE`; the connection is dropped.
    TooLong,
}

impl RequestLine {
    /// An empty line.
    pub fn new() -> (r: RequestLine)
        ensures
            r.text@.len() == 0,
            r.len == 0,
    {
        RequestLine { text: String::new(), len: 0 }
    }

    /// Takes one byte: appends it as a character, ends the line at a
    /// newline, and stops when the text is longer than `MAX_LINE` bytes.
    pub fn feed(&mut self, b: u8) -> (r: LineStep)
        requires
            old(self).len == vstd::utf8::encode_utf8(old(self).text@).len(),
            old(self).len <= MAX_LINE,
        ensures
            final(self).text@ == old(self).text@.push(b as char),
            final(self).len == vstd::utf8::encode_utf8(final(self).text@).len(),
            final(self).len == old(self).len + if b < 128 {
                1int
            } else {
                2int
            },
            r == if b == 10u8 {
                LineStep::Done
            } else if final(self).len > MAX_LINE {
                LineStep::TooLong
            } else {
                LineStep::More
            },
    {
        let c = b as char;
        proof {
            lemma_encode_push(self.text@, c);
            assert(c as u32 == b as u32);
        }
        push_char(&mut self.text, c);
        self.len = if b < 128 {
            self.len + 1
        } else {
            self.len + 2
        };
        if b == 10 {
            LineStep::Done
        } else if self.len > MAX_LINE {
            LineStep::TooLong
        } else {
            LineStep::More
        }
    }
}

/// How a reload request ended, as the client is told.
#[derive(Debug)]
pub enum ReloadReply {
    /// The daemon validated and applied the configuration.
    Reloaded,
    /// The reload did not happen; the reason.
    Failed(String),
}

/// The reply to a reload request: the daemon loop's verdict, `daemon
/// loop gone` when the request could not be handed over, `reload timeout`
/// when no verdict came in time.
pub fn reload_reply(sent: bool, verdict: Option<Result<(), String>>) -> (r: ReloadReply)
    ensures
        !sent ==> (r matches ReloadReply::Failed(m) && m@ == "daemon loop gone"@),
        sent ==> match verdict {
            None => (r matches ReloadReply::Failed(m) && m@ == "reload timeout"@),
            Some(Ok(())) => r is Reloaded,
            Some(Err(e)) => (r matches ReloadReply::Failed(m) && m@ == e@),
        },
{
    if !sent {
        return ReloadReply::Failed("daemon loop gone".to_owned());
    }
    match verdict {
        None => ReloadReply::Failed("reload timeout".to_owned()),
        Some(Ok(())) => ReloadReply::Reloaded,
        Some(Err(e)) => ReloadReply::Failed(e),
    }
}

/// What a `set-config` request is answered with before the configuration
/// is stored: the configuration to store, or the error to report.
pub open spec fn config_verdict(body_empty: bool, parsed: Result<Config, String>) -> Result<
    Config,
    Seq<char>,
> {
    if body_empty {
        Err("empty body"@)
    } else {
        match parsed {
            Err(e) => Err("json: "@ + e@),
            Ok(c) => match rules_outcome(
                catalog_syscalls(),
                catalog_groups(),
                print_groups_of(c.print),
                watch_groups_of(c.watch),
                basenames_of(c.watch),
            ) {
                Err(f) => Err("validate: "@ + fault_message(f)),
                Ok(_) => Ok(c),
            },
        }
    }
}

/// Checks a `set-config` request: its body must be present, parse and
/// validate; the error text says which step failed.
pub fn accept_config(body_empty: bool, parsed: Result<Config, String>) -> (r: Result<Config, String>)
    ensures
        match config_verdict(body_empty, parsed) {
            Ok(c) => r == Ok::<Config, String>(c),
            Err(m) => r matches Err(e) && e@ == m,
        },
{
    if body_empty {
        return Err("empty body".to_owned());
    }
    proof {
        reveal_strlit("");
    }
    match parsed {
        Err(e) => {
            let m = message3("json: ", e.as_str(), "");
            assert(m@ =~= "json: "@ + e@);
            Err(m)
        },
        Ok(c) => match c.validate() {
            Err(ConfigError::Validation(v)) => {
                let m = message3("validate: ", v.as_str(), "");
                assert(m@ =~= "validate: "@ + v@);
                Err(m)
            },
            Ok(_) => Ok(c),
        },
    }
}

/// Appending a character adds its encoding to the end.
pub proof fn lemma_encode_push(s: Seq<char>, c: char)
    ensures
        vstd::utf8::encode_utf8(s.push(c)) == vstd::utf8::encode_utf8(s) + vstd::utf8::encode_scalar(
            c as u32,
        ),
    decreases s.len(),
{
    if s.len() == 0 {
        assert(s.push(c).drop_first() =~= Seq::<char>::empty());
        assert(vstd::utf8::encode_utf8(Seq::<char>::empty()) =~= Seq::<u8>::empty());
        assert(vstd::utf8::encode_utf8(s) =~= Seq::<u8>::empty());
        assert(s.push(c)[0] == c);
        assert(vstd::utf8::encode_utf8(s.push(c)) =~= vstd::utf8::encode_scalar(c as u32)
            + vstd::utf8::encode_utf8(s.push(c).drop_first()));
    } else {
        assert(s.push(c).drop_first() =~= s.drop_first().push(c));
        lemma_encode_push(s.drop_first(), c);
        assert(vstd::utf8::encode_utf8(s.push(c)) =~= vstd::utf8::encode_utf8(s)
            + vstd::utf8::encode_scalar(c as u32));
    }
}

/// What `serde_json` reads from a request line: `None` when the text is
/// not JSON; else the `cmd` string (empty when absent or not a string),
/// and `after` and `limit` when they are unsigned integers.
pub uninterp spec fn json_request(line: Seq<char>) -> Option<(Seq<char>, Option<u64>, Option<u64>)>;

/// Parses a request line with `serde_json::from_str::<Value>` and reads
/// its `cmd` (`Value::as_str`), `after` and `limit` (`Value::as_u64`).
#[verifier::external_body]
fn request_fields(line: &str) -> (r: Option<(String, Option<u64>, Option<u64>)>)
    ensures
        match r {
            Some(t) => json_request(line@) == Some((t.0@, t.1, t.2)),
            None => json_request(line@) is None,
        },
{
    match serde_json::from_str::<Value>(line) {
        Ok(v) => Some((
            v.get("cmd").and_then(Value::as_str).unwrap_or_default().to_owned(),
            v.get("after").and_then(Value::as_u64),
            v.get("limit").and_then(Value::as_u64),
        )),
        Err(_) => None,
    }
}

/// A string as a JSON string literal (`serde_json::to_string` on a
/// `str`): quoted, with quotes, backslashes and control characters
/// escaped.
pub uninterp spec fn json_string(s: Seq<char>) -> Seq<char>;

/// Writes a string as a JSON string literal with `serde_json::to_string`,
/// which cannot fail for a string.
#[verifier::external_body]
fn string_json(s: &str) -> (r: String)
    ensures
        r@ == json_string(s@),
{
    serde_json::to_string(s).unwrap_or_default()
}

/// The reply to a `ping`.
pub open spec fn pong_json() -> Seq<char> {
    "{\"ok\":true,\"pong\":true}"@
}

/// The reply after `clear`.
pub open spec fn cleared_json() -> Seq<char> {
    "{\"cleared\":true,\"ok\":true}"@
}

/// The reply after a reload that went through.
pub open spec fn reloaded_json() -> Seq<char> {
    "{\"ok\":true,\"reloaded\":true}"@
}

/// An error reply carrying `m` (keys in the order `serde_json` writes an
/// object's: sorted).
pub open spec fn error_json(m: Seq<char>) -> Seq<char> {
    "{\"error\":"@ + json_string(m) + ",\"ok\":false}"@
}

/// A fixed reply line.
fn text_of(t: &str) -> (r: String)
    ensures
        r@ == t@,
{
    t.to_owned()
}

/// The reply to a `ping`.
pub fn pong_reply() -> (r: String)
    ensures
        r@ == pong_json(),
{
    text_of("{\"ok\":true,\"pong\":true}")
}

/// The reply after `clear`.
pub fn cleared_reply() -> (r: String)
    ensures
        r@ == cleared_json(),
{
    text_of("{\"cleared\":true,\"ok\":true}")
}

/// An error reply carrying `m`.
pub fn error_reply(m: &str) -> (r: String)
    ensures
        r@ == error_json(m@),
{
    let mut r = text_of("{\"error\":");
    let j = string_json(m);
    push_str(&mut r, j.as_str());
    push_str(&mut r, ",\"ok\":false}");
    r
}

/// The reply line for how a reload request ended.
pub fn reload_reply_text(r: &ReloadReply) -> (t: String)
    ensures
        t@ == match r {
            ReloadReply::Reloaded => reloaded_json(),
            ReloadReply::Failed(e) => error_json(e@),
        },
{
    match r {
        ReloadReply::Reloaded => text_of("{\"ok\":true,\"reloaded\":true}"),
        ReloadReply::Failed(e) => error_reply(e.as_str()),
    }
}

/// `true` or `false` as JSON.
pub open spec fn json_bool(b: bool) -> Seq<char> {
    if b {
        "true"@
    } else {
        "false"@
    }
}

/// The reply to `status`: whether BTF is there, the daemon's process id,
/// the event file's size, the kernel release, the newest event number.
pub open spec fn status_json(newest: u64, kernel: Seq<char>, btf: bool, events_bytes: u64, pid: u32) -> Seq<char> {
    "{\"btf\":"@ + json_bool(btf) + ",\"daemon_pid\":"@ + dec_nat(pid as nat) + ",\"events_bytes\":"@
        + dec_nat(events_bytes as nat) + ",\"kernel\":"@ + json_string(kernel) + ",\"newest\":"@
        + dec_nat(newest as nat) + ",\"ok\":true}"@
}

/// The reply to `status`.
pub fn status_reply(newest: u64, kernel: &str, btf: bool, events_bytes: u64, pid: u32) -> (r: String)
    ensures
        r@ == status_json(newest, kernel@, btf, events_bytes, pid),
{
    let mut r = text_of("{\"btf\":");
    if btf {
        push_str(&mut r, "true");
    } else {
        push_str(&mut r, "false");
    }
    push_str(&mut r, ",\"daemon_pid\":");
    let p = fmt_u64(pid as u64);
    push_str(&mut r, p.as_str());
    push_str(&mut r, ",\"events_bytes\":");
    let b = fmt_u64(events_bytes);
    push_str(&mut r, b.as_str());
    push_str(&mut r, ",\"kernel\":");
    let k = string_json(kernel);
    push_str(&mut r, k.as_str());
    push_str(&mut r, ",\"newest\":");
    let n = fmt_u64(newest);
    push_str(&mut r, n.as_str());
    push_str(&mut r, ",\"ok\":true}");
    proof {
        reveal_strlit("true");
        reveal_strlit("false");
    }
    assert(r@ =~= status_json(newest, kernel@, btf, events_bytes, pid));
    r
}

/// JSON texts joined with commas.
pub open spec fn comma_joined(items: Seq<Seq<char>>) -> Seq<char>
    decreases items.len(),
{
    if items.len() == 0 {
        seq![]
    } else if items.len() == 1 {
        items[0]
    } else {
        comma_joined(items.drop_last()) + ","@ + items.last()
    }
}

/// The reply to `events`, each event given as its JSON text.
pub open spec fn events_json(items: Seq<Seq<char>>) -> Seq<char> {
    "{\"events\":["@ + comma_joined(items) + "],\"ok\":true}"@
}

/// The reply to `events`, each event given as its JSON text.
pub fn events_reply(items: &Vec<String>) -> (r: String)
    ensures
        r@ == events_json(items@.map_values(|t: String| t@)),
{
    let ghost v = items@.map_values(|t: String| t@);
    let mut body = String::new();
    let mut i: usize = 0;
    while i < items.len()
        invariant
            i <= items@.len(),
            v == items@.map_values(|t: String| t@),
            body@ == comma_joined(v.take(i as int)),
        decreases items@.len() - i,
    {
        proof {
            assert(v.take(i + 1).drop_last() =~= v.take(i as int));
            assert(v.take(i + 1).last() == v[i as int]);
        }
        if i > 0 {
            push_str(&mut body, ",");
        }
        push_str(&mut body, items[i].as_str());
        proof {
            if i == 0 {
                assert(body@ =~= v.take(1)[0]);
            } else {
                assert(body@ =~= comma_joined(v.take(i as int)) + ","@ + v.take(i + 1).last());
            }
        }
        i += 1;
    }
    assert(v.take(i as int) =~= v);
    let r = message3("{\"events\":[", body.as_str(), "],\"ok\":true}");
    r
}

/// The reply to a configuration request, the configuration given as its
/// JSON text.
pub fn config_reply(config: &str) -> (r: String)
    ensures
        r@ == "{\"config\":"@ + config@ + ",\"ok\":true}"@,
{
    message3("{\"config\":", config, ",\"ok\":true}")
}

/// The reply to `sync`: the store's document in base64.
pub fn sync_reply(doc: &[u8]) -> (r: String)
    ensures
        r@ == "{\"doc\":"@ + json_string(b64_encode(doc@)) + ",\"ok\":true}"@,
{
    let b = base64_encode(doc);
    let j = string_json(b.as_str());
    message3("{\"doc\":", j.as_str(), ",\"ok\":true}")
}

/// The document a `sync` request carries: nothing for an empty body;
/// else the body as text (invalid UTF-8 replaced), trimmed and decoded
/// from base64.
pub fn sync_payload(body: &[u8]) -> (r: Option<Vec<u8>>)
    ensures
        body@.len() == 0 ==> r is None,
        body@.len() > 0 ==> (r matches Some(d) && d@ == join_sextets(
            sextets(vstd::utf8::encode_utf8(trim_ws(utf8_lossy(body@)))),
        )),
{
    if body.len() == 0 {
        return None;
    }
    let text = lossy_string(body);
    let t = trim_text(text.as_str());
    match base64_decode(t) {
        Ok(d) => Some(d),
        Err(_) => None,
    }
}

/// What the daemon does with a request.
#[derive(Debug)]
pub enum Action {
    /// The line is not JSON: no reply.
    Drop,
    /// Answer with this line.
    Reply(String),
    Status,
    /// Answer with the events after the first number, at most the second.
    Events(u64, usize),
    Clear,
    ConfigGet,
    ConfigSet,
    Reload,
    Sync,
}

/// Abstract value of an [`Action`].
pub enum ActionView {
    Drop,
    Reply(Seq<char>),
    Status,
    Events(u64, usize),
    Clear,
    ConfigGet,
    ConfigSet,
    Reload,
    Sync,
}

impl View for Action {
    type V = ActionView;

    open spec fn view(&self) -> ActionView {
        match self {
            Action::Drop => ActionView::Drop,
            Action::Reply(t) => ActionView::Reply(t@),
            Action::Status => ActionView::Status,
            Action::Events(a, l) => ActionView::Events(*a, *l),
            Action::Clear => ActionView::Clear,
            Action::ConfigGet => ActionView::ConfigGet,
            Action::ConfigSet => ActionView::ConfigSet,
            Action::Reload => ActionView::Reload,
            Action::Sync => ActionView::Sync,
        }
    }
}

/// The limit of an `events` request: 500 when not given, never above
/// 2000.
pub open spec fn window_limit(limit: Option<u64>) -> usize {
    let l = match limit {
        Some(l) => l,
        None => DEFAULT_LIMIT,
    };
    (if l < MAX_LIMIT {
        l
    } else {
        MAX_LIMIT
    }) as usize
}

/// What a request asks the daemon to do: nothing for a line that is not
/// JSON; the command named by `cmd`, `events` with its window; a `ping`
/// and an unknown command answered at once.
pub open spec fn request_action(req: Option<(Seq<char>, Option<u64>, Option<u64>)>) -> ActionView {
    match req {
        None => ActionView::Drop,
        Some((cmd, after, limit)) => if cmd == "ping"@ {
            ActionView::Reply(pong_json())
        } else if cmd == "status"@ {
            ActionView::Status
        } else if cmd == "events"@ {
            ActionView::Events(
                match after {
                    Some(a) => a,
                    None => 0,
                },
                window_limit(limit),
            )
        } else if cmd == "clear"@ {
            ActionView::Clear
        } else if cmd == "config-get"@ || cmd == "get-config"@ {
            ActionView::ConfigGet
        } else if cmd == "set-config"@ || cmd == "config-set"@ {
            ActionView::ConfigSet
        } else if cmd == "reload"@ {
            ActionView::Reload
        } else if cmd == "sync"@ {
            ActionView::Sync
        } else {
            ActionView::Reply(error_json("unknown cmd: "@ + cmd))
        },
    }
}

/// Decides what to do with a request line: it is read as JSON after
/// trailing white space is removed.
pub fn serve_request(line: &str) -> (a: Action)
    ensures
        a@ == request_action(json_request(trim_end_ws(line@))),
{
    let t = trim_end_text(line);
    match request_fields(t) {
        None => Action::Drop,
        Some((cmd, after, limit)) => match classify(cmd.as_str()) {
            Command::Ping => Action::Reply(pong_reply()),
            Command::Status => Action::Status,
            Command::Events => {
                let (a, l) = events_window(after, limit);
                Action::Events(a, l)
            },
            Command::Clear => Action::Clear,
            Command::ConfigGet => Action::ConfigGet,
            Command::ConfigSet => Action::ConfigSet,
            Command::Reload => Action::Reload,
            Command::Sync => Action::Sync,
            Command::Unknown(other) => {
                proof {
                    reveal_strlit("");
                }
                let m = message3("unknown cmd: ", other.as_str(), "");
                assert(m@ =~= "unknown cmd: "@ + cmd@);
                Action::Reply(error_reply(m.as_str()))
            },
        },
    }
}

/// What `serde_json` reads from a reply: `None` when the text is not JSON;
/// else its `ok` as a boolean, the string under `field` when one is
/// named, and the reply written back out as JSON.
pub uninterp spec fn json_reply(resp: Seq<char>, field: Option<Seq<char>>) -> Option<
    (Option<bool>, Option<Seq<char>>, Seq<char>),
>;

/// Views of an optional string slice.
pub open spec fn opt_str(o: Option<&str>) -> Option<Seq<char>> {
    match o {
        Some(s) => Some(s@),
        None => None,
    }
}

/// Views of an optional string.
pub open spec fn opt_string(o: Option<String>) -> Option<Seq<char>> {
    match o {
        Some(s) => Some(s@),
        None => None,
    }
}

/// Parses a reply with `serde_json::from_str::<Value>`, reads `ok`
/// (`Value::as_bool`) and the string under `field` (`Value::as_str`), and
/// writes the reply back out (`serde_json::to_string`).
#[verifier::external_body]
fn reply_fields(resp: &str, field: Option<&str>) -> (r: Option<(Option<bool>, Option<String>, String)>)
    ensures
        match r {
            Some(t) => json_reply(resp@, opt_str(field)) == Some((t.0, opt_string(t.1), t.2@)),
            None => json_reply(resp@, opt_str(field)) is None,
        },
{
    let v = match serde_json::from_str::<Value>(resp) {
        Ok(v) => v,
        Err(_) => return None,
    };
    let named = match field {
        Some(f) => v.get(f).and_then(Value::as_str).map(str::to_owned),
        None => None,
    };
    Some((v.get("ok").and_then(Value::as_bool), named, serde_json::to_string(&v).unwrap_or_default()))
}

/// The client's exit status for a reply: 1 when it is not JSON; with a
/// raw field asked for, 0 exactly when the reply has it as a string;
/// otherwise 0 exactly when the reply's `ok` is `true`.
pub fn client_result(parsed: Option<(Option<bool>, Option<String>)>, raw_field: bool) -> (code: i32)
    ensures
        code == match parsed {
            None => 1i32,
            Some((ok, v)) => if raw_field {
                if v is Some { 0i32 } else { 1i32 }
            } else {
                if ok == Some(true) { 0i32 } else { 1i32 }
            },
        },
{
    match parsed {
        None => 1,
        Some((ok, v)) => if raw_field {
            if v.is_some() { 0 } else { 1 }
        } else {
            match ok {
                Some(true) => 0,
                _ => 1,
            }
        },
    }
}

/// What the client prints.
#[derive(Debug)]
pub enum ClientOutput {
    /// The raw field's value, with no newline.
    Raw(String),
    /// The reply written back out as JSON, on a line.
    Line(String),
    /// The reply was not JSON: `bad response: ` and the trimmed reply on
    /// the error stream.
    BadResponse(String),
}

/// What the client makes of the daemon's reply: the reply is trimmed and
/// read as JSON; the exit status is `client_result`'s, and the client
/// prints the raw field's value when it was asked for and is there, else
/// the reply as JSON.
pub fn client_main(resp: &str, raw_field: Option<&str>) -> (r: (i32, ClientOutput))
    ensures
        match json_reply(trim_ws(resp@), opt_str(raw_field)) {
            None => r.0 == 1 && (r.1 matches ClientOutput::BadResponse(t) && t@ == trim_ws(resp@)),
            Some((ok, v, text)) => if raw_field is Some {
                match v {
                    Some(x) => r.0 == 0 && (r.1 matches ClientOutput::Raw(t) && t@ == x),
                    None => r.0 == 1 && (r.1 matches ClientOutput::Line(t) && t@ == text),
                }
            } else {
                r.0 == (if ok == Some(true) { 0i32 } else { 1i32 }) && (r.1 matches ClientOutput::Line(
                    t,
                ) && t@ == text)
            },
        },
{
    let t = trim_text(resp);
    match reply_fields(t, raw_field) {
        None => (client_result(None, raw_field.is_some()), ClientOutput::BadResponse(t.to_owned())),
        Some((ok, v, text)) => {
            let code = match &v {
                Some(_) => client_result(Some((ok, Some(String::new()))), raw_field.is_some()),
                None => client_result(Some((ok, None)), raw_field.is_some()),
            };
            match (raw_field, v) {
                (Some(_), Some(x)) => (code, ClientOutput::Raw(x)),
                _ => (code, ClientOutput::Line(text)),
            }
        },
    }
}

} // verus!
