//! Argument handling of the control client.
use vstd::prelude::*;

use crate::text::str_eq;

verus! {

/// Decimal value of a byte string of ASCII digits.
pub open spec fn digits_value(d: Seq<u8>) -> nat
    decreases d.len(),
{
    if d.len() == 0 {
        0
    } else {
        digits_value(d.drop_last()) * 10 + (d.last() - 48) as nat
    }
}

/// Every byte is an ASCII digit.
pub open spec fn all_digits(d: Seq<u8>) -> bool {
    forall|i: int| 0 <= i < d.len() ==> 48 <= #[trigger] d[i] <= 57
}

/// What `u64::from_str` yields for these bytes: an optional leading `+`
/// followed by at least one digit, with a value that fits.
pub open spec fn parse_u64_bytes(s: Seq<u8>) -> Option<u64> {
    let d = if s.len() > 0 && s[0] == 43u8 {
        s.drop_first()
    } else {
        s
    };
    if d.len() > 0 && all_digits(d) && digits_value(d) <= u64::MAX {
        Some(digits_value(d) as u64)
    } else {
        None
    }
}

proof fn lemma_digits_value_grows(d: Seq<u8>, n: int)
    requires
        0 <= n <= d.len(),
        all_digits(d),
    ensures
        digits_value(d.take(n)) <= digits_value(d),
    decreases d.len() - n,
{
    if n < d.len() {
        lemma_digits_value_grows(d, n + 1);
        assert(d.take(n + 1).drop_last() =~= d.take(n));
    } else {
        assert(d.take(n) =~= d);
    }
}

/// Parses a decimal `u64` as `str::parse::<u64>` does.
pub fn parse_u64(s: &str) -> (r: Option<u64>)
    ensures
        r == parse_u64_bytes(vstd::utf8::encode_utf8(s@)),
{
    let b = s.as_bytes();
    let ghost bs = b@;
    let start: usize = if b.len() > 0 && b[0] == 43u8 {
        1
    } else {
        0
    };
    let ghost d = bs.skip(start as int);
    assert(d =~= if bs.len() > 0 && bs[0] == 43u8 {
        bs.drop_first()
    } else {
        bs
    });
    if start == b.len() {
        assert(parse_u64_bytes(bs) == parse_u64_bytes_digits(d));
        return None;
    }
    assert(parse_u64_bytes(bs) == parse_u64_bytes_digits(d));
    let mut v: u64 = 0;
    let mut i = start;
    assert(d.take(0) =~= Seq::<u8>::empty());
    while i < b.len()
        invariant
            bs == b@,
            start <= i <= bs.len(),
            d == bs.skip(start as int),
            parse_u64_bytes(bs) == parse_u64_bytes_digits(d),
            bs == vstd::utf8::encode_utf8(s@),
            all_digits(d.take(i - start)),
            v as nat == digits_value(d.take(i - start)),
        decreases bs.len() - i,
    {
        proof {
            assert(d.take(i - start + 1).drop_last() =~= d.take(i - start));
        }
        let c = b[i];
        if c < 48 || c > 57 {
            assert(d[i - start] == c);
            assert(!all_digits(d));
            assert(parse_u64_bytes(bs) == parse_u64_bytes_digits(d));
            return None;
        }
        let dv = (c - 48) as u64;
        match v.checked_mul(10) {
            None => {
                proof {
                    assert(all_digits(d.take(i - start + 1)));
                    assert(digits_value(d.take(i - start + 1)) == v * 10 + dv);
                    lemma_too_large(d, i - start + 1);
                    assert(parse_u64_bytes(bs) == parse_u64_bytes_digits(d));
                }
                return None;
            },
            Some(m) => match m.checked_add(dv) {
                None => {
                    proof {
                        assert(all_digits(d.take(i - start + 1)));
                        assert(digits_value(d.take(i - start + 1)) == v * 10 + dv);
                        lemma_too_large(d, i - start + 1);
                        assert(parse_u64_bytes(bs) == parse_u64_bytes_digits(d));
                    }
                    return None;
                },
                Some(nv) => {
                    v = nv;
                },
            },
        }
        i += 1;
    }
    proof {
        assert(d.take(i - start) =~= d);
        assert(parse_u64_bytes(bs) == parse_u64_bytes_digits(d));
    }
    Some(v)
}

/// When a prefix of the digits is already too large, so is the whole.
proof fn lemma_too_large(d: Seq<u8>, n: int)
    requires
        0 <= n <= d.len(),
        all_digits(d.take(n)),
        digits_value(d.take(n)) > u64::MAX,
    ensures
        parse_u64_bytes_digits(d) is None,
{
    if all_digits(d) {
        lemma_digits_value_grows(d, n);
    }
}

/// Digits-only part of [`parse_u64_bytes`].
pub open spec fn parse_u64_bytes_digits(d: Seq<u8>) -> Option<u64> {
    if d.len() > 0 && all_digits(d) && digits_value(d) <= u64::MAX {
        Some(digits_value(d) as u64)
    } else {
        None
    }
}


/// `o`'s value, or `d` when absent.
pub open spec fn or_u64(o: Option<u64>, d: u64) -> u64 {
    match o {
        Some(v) => v,
        None => d,
    }
}

/// Scans the client arguments from index `i` on: `after <n>` and
/// `limit <n>` set the window (an unparsable number gives 0 and 500);
/// any other argument becomes the body, the last one winning.
pub open spec fn scan_args(
    args: Seq<Seq<char>>,
    i: int,
    after: u64,
    limit: u64,
    body: Option<Seq<char>>,
) -> (u64, u64, Option<Seq<char>>)
    decreases args.len() - i,
{
    if i < 0 || i >= args.len() {
        (after, limit, body)
    } else if args[i] == "after"@ && i + 1 < args.len() {
        scan_args(
            args,
            i + 2,
            or_u64(parse_u64_bytes(vstd::utf8::encode_utf8(args[i + 1])), 0),
            limit,
            body,
        )
    } else if args[i] == "limit"@ && i + 1 < args.len() {
        scan_args(
            args,
            i + 2,
            after,
            or_u64(parse_u64_bytes(vstd::utf8::encode_utf8(args[i + 1])), 500),
            body,
        )
    } else {
        scan_args(args, i + 1, after, limit, Some(args[i]))
    }
}

/// The window's limit does not depend on the `after` value or body the
/// scan starts with, nor its `after` on the limit or body.
proof fn lemma_scan_frame(
    args: Seq<Seq<char>>,
    i: int,
    a1: u64,
    l1: u64,
    b1: Option<Seq<char>>,
    a2: u64,
    l2: u64,
    b2: Option<Seq<char>>,
)
    ensures
        scan_args(args, i, a1, l1, b1).1 == scan_args(args, i, a2, l1, b2).1,
        scan_args(args, i, a1, l1, b1).0 == scan_args(args, i, a1, l2, b2).0,
        scan_args(args, i, a1, l1, b1).2 == scan_args(args, i, a2, l2, b1).2,
    decreases args.len() - i,
{
    if 0 <= i < args.len() {
        let n0 = or_u64(parse_u64_bytes(vstd::utf8::encode_utf8(args[i + 1])), 0);
        let n5 = or_u64(parse_u64_bytes(vstd::utf8::encode_utf8(args[i + 1])), 500);
        if args[i] == "after"@ && i + 1 < args.len() {
            lemma_scan_frame(args, i + 2, n0, l1, b1, n0, l2, b2);
            lemma_scan_frame(args, i + 2, n0, l1, b1, a2, l1, b2);
            lemma_scan_frame(args, i + 2, a2, l1, b2, n0, l1, b2);
            lemma_scan_frame(args, i + 2, n0, l1, b1, n0, l2, b1);
        } else if args[i] == "limit"@ && i + 1 < args.len() {
            lemma_scan_frame(args, i + 2, a1, n5, b1, a2, n5, b2);
            lemma_scan_frame(args, i + 2, a1, n5, b1, a1, n5, b2);
            lemma_scan_frame(args, i + 2, a1, n5, b2, a1, n5, b2);
            lemma_scan_frame(args, i + 2, a1, n5, b1, a1, l2, b1);
            lemma_scan_frame(args, i + 2, a1, l2, b1, a2, l2, b1);
        } else {
            lemma_scan_frame(args, i + 1, a1, l1, Some(args[i]), a2, l2, Some(args[i]));
            lemma_scan_frame(args, i + 1, a1, l1, Some(args[i]), a1, l2, Some(args[i]));
        }
    }
}

/// The two window options are independent, each set by its own pairs
/// alone: at the end of the arguments the window is what it was; an
/// `after <n>` pair sets `after` to `n` (0 when `n` is not a number) and
/// leaves the limit to what follows, whatever `after` stood at; a
/// `limit <n>` pair sets the limit to `n` (500 when `n` is not a number)
/// and leaves `after` to what follows, whatever the limit stood at; any
/// other argument touches neither and becomes the body, and the pairs
/// leave the body alone. So the limit returned is that of the last
/// `limit` pair, the `after` that of the last `after` pair, and the body
/// the last other argument.
pub proof fn lemma_window_options(
    args: Seq<Seq<char>>,
    i: int,
    a: u64,
    l: u64,
    b: Option<Seq<char>>,
    a2: u64,
    l2: u64,
    b2: Option<Seq<char>>,
)
    requires
        0 <= i,
    ensures
        i >= args.len() ==> scan_args(args, i, a, l, b) == (a, l, b),
        i + 1 < args.len() && args[i] == "after"@ ==> {
            &&& scan_args(args, i, a, l, b).0 == scan_args(
                args,
                i + 2,
                or_u64(parse_u64_bytes(vstd::utf8::encode_utf8(args[i + 1])), 0),
                l2,
                b2,
            ).0
            &&& scan_args(args, i, a, l, b).1 == scan_args(args, i + 2, a2, l, b2).1
            &&& scan_args(args, i, a, l, b).2 == scan_args(args, i + 2, a2, l2, b).2
        },
        i + 1 < args.len() && args[i] == "limit"@ ==> {
            &&& scan_args(args, i, a, l, b).1 == scan_args(
                args,
                i + 2,
                a2,
                or_u64(parse_u64_bytes(vstd::utf8::encode_utf8(args[i + 1])), 500),
                b2,
            ).1
            &&& scan_args(args, i, a, l, b).0 == scan_args(args, i + 2, a, l2, b2).0
            &&& scan_args(args, i, a, l, b).2 == scan_args(args, i + 2, a2, l2, b).2
        },
        i < args.len() && !(i + 1 < args.len() && (args[i] == "after"@ || args[i] == "limit"@))
            ==> {
            &&& scan_args(args, i, a, l, b).0 == scan_args(args, i + 1, a, l2, b2).0
            &&& scan_args(args, i, a, l, b).1 == scan_args(args, i + 1, a2, l, b2).1
            &&& scan_args(args, i, a, l, b).2 == scan_args(args, i + 1, a2, l2, Some(args[i])).2
        },
{
    reveal_strlit("after");
    reveal_strlit("limit");
    assert("after"@ != "limit"@) by {
        assert("after"@[0] != "limit"@[0]);
    }
    if i < args.len() {
        let n0 = or_u64(parse_u64_bytes(vstd::utf8::encode_utf8(args[i + 1])), 0);
        let n5 = or_u64(parse_u64_bytes(vstd::utf8::encode_utf8(args[i + 1])), 500);
        if i + 1 < args.len() && args[i] == "after"@ {
            lemma_scan_frame(args, i + 2, n0, l, b, n0, l2, b2);
            lemma_scan_frame(args, i + 2, n0, l, b, a2, l, b2);
            lemma_scan_frame(args, i + 2, n0, l, b, a2, l2, b);
        } else if i + 1 < args.len() && args[i] == "limit"@ {
            lemma_scan_frame(args, i + 2, a, n5, b, a2, n5, b2);
            lemma_scan_frame(args, i + 2, a, n5, b, a, l2, b2);
            lemma_scan_frame(args, i + 2, a, n5, b, a2, l2, b);
        } else {
            lemma_scan_frame(args, i + 1, a, l, Some(args[i]), a, l2, b2);
            lemma_scan_frame(args, i + 1, a, l, Some(args[i]), a2, l, b2);
            lemma_scan_frame(args, i + 1, a, l, Some(args[i]), a2, l2, Some(args[i]));
        }
    }
}

/// Splits the client's arguments into the method (the first argument,
/// empty when there is none), the `after` and `limit` window (0 and 500
/// by default) and an optional body argument.
pub fn parse_args(args: &[String]) -> (r: (String, u64, u64, Option<String>))
    ensures
        ({
            let v = args@.map_values(|x: String| x@);
            let (a, l, b) = scan_args(v, 1, 0, 500, None);
            &&& r.0@ == if v.len() > 0 {
                v[0]
            } else {
                Seq::<char>::empty()
            }
            &&& r.1 == a
            &&& r.2 == l
            &&& match r.3 {
                Some(x) => b == Some(x@),
                None => b is None,
            }
        }),
{
    let ghost v = args@.map_values(|x: String| x@);
    let method = if args.len() > 0 {
        args[0].clone()
    } else {
        String::new()
    };
    let mut after: u64 = 0;
    let mut limit: u64 = 500;
    let mut body: Option<String> = None;
    let mut i: usize = 1;
    while i < args.len()
        invariant
            v == args@.map_values(|x: String| x@),
            1 <= i,
            scan_args(v, 1, 0, 500, None) == scan_args(
                v,
                i as int,
                after,
                limit,
                match body {
                    Some(x) => Some(x@),
                    None => None::<Seq<char>>,
                },
            ),
        decreases args@.len() - i,
    {
        let a = args[i].as_str();
        if str_eq(a, "after") && args.len() - i > 1 {
            after = match parse_u64(args[i + 1].as_str()) {
                Some(n) => n,
                None => 0,
            };
            i += 2;
        } else if str_eq(a, "limit") && args.len() - i > 1 {
            limit = match parse_u64(args[i + 1].as_str()) {
                Some(n) => n,
                None => 500,
            };
            i += 2;
        } else {
            body = Some(args[i].clone());
            i += 1;
        }
    }
    (method, after, limit, body)
}

/// The command a client method is sent as: the configuration methods
/// under one name each, any other method as itself.
pub open spec fn request_cmd_of(m: Seq<char>) -> Seq<char> {
    if m == "get-config"@ || m == "config-get"@ {
        "get-config"@
    } else if m == "set-config"@ || m == "config-set"@ {
        "set-config"@
    } else {
        m
    }
}

/// The command sent for a client method.
pub fn request_cmd(method: &str) -> (r: String)
    ensures
        r@ == request_cmd_of(method@),
{
    if str_eq(method, "get-config") || str_eq(method, "config-get") {
        "get-config".to_owned()
    } else if str_eq(method, "set-config") || str_eq(method, "config-set") {
        "set-config".to_owned()
    } else {
        method.to_owned()
    }
}

/// What a client method sends after its request line.
#[derive(Clone, Copy, Debug, PartialEq, Eq, Structural)]
pub enum BodyKind {
    /// The configuration file named by the body argument (`-` for
    /// standard input), empty when none is named.
    Config,
    /// The document named by the body argument, nothing when none is
    /// named.
    Document,
    /// Nothing.
    NoBody,
}

/// The body a client method sends.
pub fn body_kind(method: &str) -> (r: BodyKind)
    ensures
        r == if request_cmd_of(method@) == "set-config"@ {
            BodyKind::Config
        } else if method@ == "sync"@ {
            BodyKind::Document
        } else {
            BodyKind::NoBody
        },
{
    let cmd = request_cmd(method);
    if str_eq(cmd.as_str(), "set-config") {
        BodyKind::Config
    } else if str_eq(method, "sync") {
        BodyKind::Document
    } else {
        BodyKind::NoBody
    }
}

/// The client's exit status: for `sync`, success when the reply carries
/// a document; otherwise success when the reply says `ok`.
pub fn client_exit_code(method: &str, reply_has_doc: bool, reply_ok: bool) -> (r: u8)
    ensures
        r == if method@ == "sync"@ {
            if reply_has_doc { 0u8 } else { 1u8 }
        } else {
            if reply_ok { 0u8 } else { 1u8 }
        },
{
    let ok = if str_eq(method, "sync") {
        reply_has_doc
    } else {
        reply_ok
    };
    if ok {
        0
    } else {
        1
    }
}

/// Whether the client prints its usage: no arguments, or `-h`/`--help`
/// first.
pub fn wants_usage(args: &[String]) -> (r: bool)
    ensures
        r == (args@.len() == 0 || args@[0]@ == "-h"@ || args@[0]@ == "--help"@),
{
    args.len() == 0 || str_eq(args[0].as_str(), "-h") || str_eq(args[0].as_str(), "--help")
}

} // verus!
