//! Standard base64 (with `=` padding) used to carry the event document
//! over the control socket.
use vstd::prelude::*;

use crate::text::push_char;

verus! {

/// The base64 symbol for a 6-bit value.
pub open spec fn b64_sym(v: u8) -> char {
    if v < 26 {
        ((65 + v) as u32) as char
    } else if v < 52 {
        ((97 + v - 26) as u32) as char
    } else if v < 62 {
        ((48 + v - 52) as u32) as char
    } else if v == 62 {
        '+'
    } else {
        '/'
    }
}

/// The four symbols encoding the first one to three bytes of `s`.
pub open spec fn enc_group(s: Seq<u8>) -> Seq<char> {
    let a = s[0];
    let b = if s.len() > 1 {
        s[1]
    } else {
        0u8
    };
    let c = if s.len() > 2 {
        s[2]
    } else {
        0u8
    };
    seq![
        b64_sym(a >> 2u8),
        b64_sym(((a & 3u8) << 4u8) | (b >> 4u8)),
        if s.len() > 1 {
            b64_sym(((b & 15u8) << 2u8) | (c >> 6u8))
        } else {
            '='
        },
        if s.len() > 2 {
            b64_sym(c & 63u8)
        } else {
            '='
        },
    ]
}

/// Base64 encoding of `s`, padded with `=`.
pub open spec fn b64_encode(s: Seq<u8>) -> Seq<char>
    decreases s.len(),
{
    if s.len() == 0 {
        seq![]
    } else if s.len() <= 3 {
        enc_group(s)
    } else {
        enc_group(s) + b64_encode(s.skip(3))
    }
}

fn sym(v: u8) -> (c: char)
    requires
        v < 64,
    ensures
        c == b64_sym(v),
{
    if v < 26 {
        (65 + v) as char
    } else if v < 52 {
        (97 + v - 26) as char
    } else if v < 62 {
        (48 + v - 52) as char
    } else if v == 62 {
        '+'
    } else {
        '/'
    }
}

/// Encodes bytes as base64 text.
pub fn base64_encode(b: &[u8]) -> (r: String)
    ensures
        r@ == b64_encode(b@),
{
    let len = b.len();
    let mut o = String::new();
    let mut i: usize = 0;
    proof {
        assert(b@.skip(0) =~= b@);
        assert(o@ + b64_encode(b@.skip(0)) =~= b64_encode(b@));
    }
    while i < len
        invariant
            len == b@.len(),
            i <= len,
            b64_encode(b@) == o@ + b64_encode(b@.skip(i as int)),
        decreases len - i,
    {
        let ghost rest = b@.skip(i as int);
        let a = b[i];
        let bb = if len - i > 1 {
            b[i + 1]
        } else {
            0u8
        };
        let c = if len - i > 2 {
            b[i + 2]
        } else {
            0u8
        };
        assert(a >> 2u8 < 64 && ((a & 3u8) << 4u8) | (bb >> 4u8) < 64 && ((bb & 15u8) << 2u8) | (c
            >> 6u8) < 64 && c & 63u8 < 64) by (bit_vector);
        push_char(&mut o, sym(a >> 2u8));
        push_char(&mut o, sym(((a & 3u8) << 4u8) | (bb >> 4u8)));
        if len - i > 1 {
            push_char(&mut o, sym(((bb & 15u8) << 2u8) | (c >> 6u8)));
        } else {
            push_char(&mut o, '=');
        }
        if len - i > 2 {
            push_char(&mut o, sym(c & 63u8));
        } else {
            push_char(&mut o, '=');
        }
        let next = if len - i > 3 {
            i + 3
        } else {
            len
        };
        proof {
            assert(rest.len() > 0);
            if rest.len() <= 3 {
                assert(b@.skip(next as int) =~= Seq::<u8>::empty());
            } else {
                assert(rest.skip(3) =~= b@.skip(next as int));
            }
            assert(o@ =~= (o@.subrange(0, o@.len() - 4)) + enc_group(rest));
        }
        i = next;
    }
    proof {
        assert(b@.skip(len as int) =~= Seq::<u8>::empty());
        assert(o@ + Seq::<char>::empty() =~= o@);
    }
    o
}

/// The 6-bit value of a base64 symbol byte.
pub open spec fn b64_val(c: u8) -> Option<u8> {
    if 65 <= c <= 90 {
        Some((c - 65) as u8)
    } else if 97 <= c <= 122 {
        Some((c - 97 + 26) as u8)
    } else if 48 <= c <= 57 {
        Some((c - 48 + 52) as u8)
    } else if c == 43 {
        Some(62u8)
    } else if c == 47 {
        Some(63u8)
    } else {
        None
    }
}

/// Values of the base64 symbols in `s` up to the first `=`; other bytes
/// are skipped.
pub open spec fn sextets(s: Seq<u8>) -> Seq<u8>
    decreases s.len(),
{
    if s.len() == 0 || s[0] == 61u8 {
        seq![]
    } else {
        match b64_val(s[0]) {
            Some(v) => seq![v] + sextets(s.drop_first()),
            None => sextets(s.drop_first()),
        }
    }
}

/// Bytes carried by a sequence of 6-bit values: three per four values, a
/// trailing pair or triple giving one or two bytes.
pub open spec fn join_sextets(x: Seq<u8>) -> Seq<u8>
    decreases x.len(),
{
    if x.len() < 2 {
        seq![]
    } else {
        let b0 = ((x[0] << 2u8) | (x[1] >> 4u8)) as u8;
        if x.len() == 2 {
            seq![b0]
        } else {
            let b1 = (((x[1] & 15u8) << 4u8) | (x[2] >> 2u8)) as u8;
            if x.len() == 3 {
                seq![b0, b1]
            } else {
                let b2 = (((x[2] & 3u8) << 6u8) | x[3]) as u8;
                seq![b0, b1, b2] + join_sextets(x.skip(4))
            }
        }
    }
}

fn val(c: u8) -> (r: Option<u8>)
    ensures
        r == b64_val(c),
{
    if 65 <= c && c <= 90 {
        Some(c - 65)
    } else if 97 <= c && c <= 122 {
        Some(c - 97 + 26)
    } else if 48 <= c && c <= 57 {
        Some(c - 48 + 52)
    } else if c == 43 {
        Some(62)
    } else if c == 47 {
        Some(63)
    } else {
        None
    }
}

/// Decodes base64 text. Symbols are read up to the first `=`; bytes that
/// are not base64 symbols (whitespace, quotes, line breaks) are skipped,
/// and a trailing lone symbol carries no byte. Always succeeds.
pub fn base64_decode(s: &str) -> (r: Result<Vec<u8>, String>)
    ensures
        r matches Ok(v) && v@ == join_sextets(sextets(vstd::utf8::encode_utf8(s@))),
{
    let bytes = s.as_bytes();
    let ghost bs = bytes@;
    let mut xs: Vec<u8> = Vec::new();
    let mut i: usize = 0;
    proof {
        assert(bs.skip(0) =~= bs);
        assert(xs@ + sextets(bs.skip(0)) =~= sextets(bs));
    }
    while i < bytes.len()
        invariant
            bs == bytes@,
            i <= bs.len(),
            sextets(bs) == xs@ + sextets(bs.skip(i as int)),
            forall|j: int| 0 <= j < xs@.len() ==> xs@[j] < 64,
        decreases bs.len() - i,
    {
        let ghost rest = bs.skip(i as int);
        assert(rest.drop_first() =~= bs.skip(i + 1));
        let ch = bytes[i];
        if ch == 61u8 {
            proof {
                assert(bs.skip(bs.len() as int) =~= Seq::<u8>::empty());
            }
            i = bytes.len();
        } else {
            match val(ch) {
                Some(v) => {
                    xs.push(v);
                    assert(sextets(rest) == seq![v] + sextets(bs.skip(i + 1)));
                    assert(xs@ + sextets(bs.skip(i + 1)) =~= xs@.drop_last() + sextets(rest));
                },
                None => {},
            }
            i += 1;
        }
    }
    proof {
        if i == bs.len() {
            assert(bs.skip(i as int) =~= Seq::<u8>::empty());
        }
        assert(sextets(bs) =~= xs@);
    }
    let n = xs.len();
    let mut out: Vec<u8> = Vec::new();
    let mut j: usize = 0;
    proof {
        assert(xs@.skip(0) =~= xs@);
        assert(out@ + join_sextets(xs@.skip(0)) =~= join_sextets(xs@));
    }
    while n - j > 1
        invariant
            n == xs@.len(),
            j <= n,
            forall|k: int| 0 <= k < n ==> xs@[k] < 64,
            join_sextets(xs@) == out@ + join_sextets(xs@.skip(j as int)),
        decreases n - j,
    {
        let ghost rest = xs@.skip(j as int);
        let x0 = xs[j];
        let x1 = xs[j + 1];
        out.push((x0 << 2u8) | (x1 >> 4u8));
        if n - j > 2 {
            let x2 = xs[j + 2];
            out.push(((x1 & 15u8) << 4u8) | (x2 >> 2u8));
            if n - j > 3 {
                let x3 = xs[j + 3];
                out.push(((x2 & 3u8) << 6u8) | x3);
                proof {
                    assert(rest.skip(4) =~= xs@.skip(j + 4));
                    assert(out@ + join_sextets(xs@.skip(j + 4)) =~= out@.subrange(
                        0,
                        out@.len() - 3,
                    ) + join_sextets(rest));
                }
                j = j + 4;
            } else {
                proof {
                    assert(xs@.skip(n as int) =~= Seq::<u8>::empty());
                    assert(out@ + join_sextets(xs@.skip(n as int)) =~= out@.subrange(
                        0,
                        out@.len() - 2,
                    ) + join_sextets(rest));
                }
                j = n;
            }
        } else {
            proof {
                assert(xs@.skip(n as int) =~= Seq::<u8>::empty());
                assert(out@ + join_sextets(xs@.skip(n as int)) =~= out@.subrange(
                    0,
                    out@.len() - 1,
                ) + join_sextets(rest));
            }
            j = n;
        }
    }
    proof {
        assert(join_sextets(xs@.skip(j as int)) =~= Seq::<u8>::empty());
        assert(out@ + Seq::<u8>::empty() =~= out@);
    }
    Ok(out)
}


/// The byte of the base64 symbol for a 6-bit value.
pub open spec fn sym_byte(v: u8) -> u8 {
    if v < 26 {
        (65 + v) as u8
    } else if v < 52 {
        (97 + v - 26) as u8
    } else if v < 62 {
        (48 + v - 52) as u8
    } else if v == 62 {
        43u8
    } else {
        47u8
    }
}

proof fn lemma_sym(v: u8)
    requires
        v < 64,
    ensures
        b64_sym(v) as u8 == sym_byte(v),
        '\0' <= b64_sym(v) <= '\u{7f}',
        b64_val(sym_byte(v)) == Some(v),
        sym_byte(v) != 61u8,
{
}

/// The 6-bit values that the symbols of the group starting `s` carry
/// (absent bytes read as zero; padding carries none).
pub open spec fn group_vals(s: Seq<u8>) -> Seq<u8> {
    let a = s[0];
    let b = if s.len() > 1 {
        s[1]
    } else {
        0u8
    };
    let c = if s.len() > 2 {
        s[2]
    } else {
        0u8
    };
    let v0 = a >> 2u8;
    let v1 = ((a & 3u8) << 4u8) | (b >> 4u8);
    let v2 = ((b & 15u8) << 2u8) | (c >> 6u8);
    let v3 = c & 63u8;
    if s.len() == 1 {
        seq![v0, v1]
    } else if s.len() == 2 {
        seq![v0, v1, v2]
    } else {
        seq![v0, v1, v2, v3]
    }
}

/// The 6-bit values carried by the base64 encoding of `s`.
pub open spec fn b64_values(s: Seq<u8>) -> Seq<u8>
    decreases s.len(),
{
    if s.len() == 0 {
        seq![]
    } else if s.len() <= 3 {
        group_vals(s)
    } else {
        group_vals(s) + b64_values(s.skip(3))
    }
}

/// Bytes of a sequence of ASCII characters.
pub open spec fn char_bytes(c: Seq<char>) -> Seq<u8> {
    c.map_values(|x: char| x as u8)
}

proof fn lemma_sextets_cons(v: u8, rest: Seq<u8>)
    requires
        v < 64,
    ensures
        sextets(seq![sym_byte(v)] + rest) == seq![v] + sextets(rest),
{
    lemma_sym(v);
    assert((seq![sym_byte(v)] + rest).drop_first() =~= rest);
}

proof fn lemma_sextets_pad(rest: Seq<u8>)
    ensures
        sextets(seq![61u8] + rest) == Seq::<u8>::empty(),
{
}

proof fn lemma_group_bits(a: u8, b: u8, c: u8)
    ensures
        a >> 2u8 < 64,
        ((a & 3u8) << 4u8) | (b >> 4u8) < 64,
        ((b & 15u8) << 2u8) | (c >> 6u8) < 64,
        c & 63u8 < 64,
        (((a >> 2u8) << 2u8) | ((((a & 3u8) << 4u8) | (b >> 4u8)) >> 4u8)) as u8 == a,
        ((((((a & 3u8) << 4u8) | (b >> 4u8)) & 15u8) << 4u8) | ((((b & 15u8) << 2u8) | (c
            >> 6u8)) >> 2u8)) as u8 == b,
        ((((((b & 15u8) << 2u8) | (c >> 6u8)) & 3u8) << 6u8) | (c & 63u8)) as u8 == c,
{
    assert(a >> 2u8 < 64) by (bit_vector);
    assert(((a & 3u8) << 4u8) | (b >> 4u8) < 64) by (bit_vector);
    assert(((b & 15u8) << 2u8) | (c >> 6u8) < 64) by (bit_vector);
    assert(c & 63u8 < 64) by (bit_vector);
    assert((((a >> 2u8) << 2u8) | ((((a & 3u8) << 4u8) | (b >> 4u8)) >> 4u8)) as u8 == a)
        by (bit_vector);
    assert(((((((a & 3u8) << 4u8) | (b >> 4u8)) & 15u8) << 4u8) | ((((b & 15u8) << 2u8) | (c
        >> 6u8)) >> 2u8)) as u8 == b) by (bit_vector);
    assert(((((((b & 15u8) << 2u8) | (c >> 6u8)) & 3u8) << 6u8) | (c & 63u8)) as u8 == c)
        by (bit_vector);
}

/// The encoding is ASCII, and its bytes carry exactly the group values.
proof fn lemma_encode_values(s: Seq<u8>)
    ensures
        is_ascii(b64_encode(s)),
        sextets(char_bytes(b64_encode(s))) == b64_values(s),
    decreases s.len(),
{
    if s.len() == 0 {
        assert(char_bytes(b64_encode(s)) =~= Seq::<u8>::empty());
    } else {
        let a = s[0];
        let b = if s.len() > 1 {
            s[1]
        } else {
            0u8
        };
        let c = if s.len() > 2 {
            s[2]
        } else {
            0u8
        };
        lemma_group_bits(a, b, c);
        let v0 = a >> 2u8;
        let v1 = ((a & 3u8) << 4u8) | (b >> 4u8);
        let v2 = ((b & 15u8) << 2u8) | (c >> 6u8);
        let v3 = c & 63u8;
        lemma_sym(v0);
        lemma_sym(v1);
        lemma_sym(v2);
        lemma_sym(v3);
        let rest: Seq<char> = if s.len() <= 3 {
            seq![]
        } else {
            b64_encode(s.skip(3))
        };
        let rest_vals: Seq<u8> = if s.len() <= 3 {
            seq![]
        } else {
            b64_values(s.skip(3))
        };
        if s.len() > 3 {
            lemma_encode_values(s.skip(3));
        } else {
            assert(char_bytes(rest) =~= Seq::<u8>::empty());
        }
        assert(b64_encode(s) =~= enc_group(s) + rest);
        let p2: u8 = if s.len() > 1 {
            sym_byte(v2)
        } else {
            61u8
        };
        let p3: u8 = if s.len() > 2 {
            sym_byte(v3)
        } else {
            61u8
        };
        assert(char_bytes(b64_encode(s)) =~= seq![sym_byte(v0)] + (seq![sym_byte(v1)] + (seq![p2]
            + (seq![p3] + char_bytes(rest)))));
        lemma_sextets_cons(v0, seq![sym_byte(v1)] + (seq![p2] + (seq![p3] + char_bytes(rest))));
        lemma_sextets_cons(v1, seq![p2] + (seq![p3] + char_bytes(rest)));
        if s.len() == 1 {
            lemma_sextets_pad(seq![p3] + char_bytes(rest));
            assert(b64_values(s) =~= seq![v0] + (seq![v1] + Seq::<u8>::empty()));
        } else {
            lemma_sextets_cons(v2, seq![p3] + char_bytes(rest));
            if s.len() == 2 {
                lemma_sextets_pad(char_bytes(rest));
                assert(b64_values(s) =~= seq![v0] + (seq![v1] + (seq![v2] + Seq::<u8>::empty())));
            } else {
                lemma_sextets_cons(v3, char_bytes(rest));
                assert(b64_values(s) =~= seq![v0] + (seq![v1] + (seq![v2] + (seq![v3]
                    + rest_vals))));
            }
        }
        assert(is_ascii(b64_encode(s))) by {
            assert forall|i: int| 0 <= i < b64_encode(s).len() implies '\0' <= #[trigger] b64_encode(
                s,
            )[i] <= '\u{7f}' by {
                if i >= 4 {
                    assert(b64_encode(s)[i] == rest[i - 4]);
                }
            }
        }
    }
}

/// All characters of `c` are ASCII.
pub open spec fn is_ascii(c: Seq<char>) -> bool {
    vstd::utf8::is_ascii_chars(c)
}

/// Joining the group values gives the bytes back.
proof fn lemma_join_values(s: Seq<u8>)
    ensures
        join_sextets(b64_values(s)) == s,
    decreases s.len(),
{
    if s.len() > 0 {
        let a = s[0];
        let b = if s.len() > 1 {
            s[1]
        } else {
            0u8
        };
        let c = if s.len() > 2 {
            s[2]
        } else {
            0u8
        };
        lemma_group_bits(a, b, c);
        let x = b64_values(s);
        let v0 = a >> 2u8;
        let v1 = ((a & 3u8) << 4u8) | (b >> 4u8);
        let v2 = ((b & 15u8) << 2u8) | (c >> 6u8);
        let v3 = c & 63u8;
        if s.len() > 3 {
            lemma_join_values(s.skip(3));
            assert(x =~= seq![v0, v1, v2, v3] + b64_values(s.skip(3)));
            assert(x.skip(4) =~= b64_values(s.skip(3)));
            assert(join_sextets(x) == seq![a, b, c] + join_sextets(x.skip(4)));
            assert(s =~= seq![a, b, c] + s.skip(3));
        } else if s.len() == 3 {
            assert(x =~= seq![v0, v1, v2, v3]);
            assert(x.skip(4) =~= Seq::<u8>::empty());
            assert(join_sextets(x) == seq![a, b, c] + join_sextets(x.skip(4)));
            assert(s =~= seq![a, b, c]);
        } else if s.len() == 2 {
            assert(x =~= seq![v0, v1, v2]);
            assert(join_sextets(x) == seq![a, b]);
            assert(s =~= seq![a, b]);
        } else {
            assert(x =~= seq![v0, v1]);
            assert(join_sextets(x) == seq![a]);
            assert(s =~= seq![a]);
        }
    }
}

/// Decoding the base64 text of any bytes gives the bytes back.
pub proof fn lemma_base64_roundtrip(b: Seq<u8>)
    ensures
        join_sextets(sextets(vstd::utf8::encode_utf8(b64_encode(b)))) == b,
{
    lemma_encode_values(b);
    let c = b64_encode(b);
    vstd::utf8::is_ascii_chars_encode_utf8(c);
    assert(vstd::utf8::encode_utf8(c) =~= char_bytes(c));
    lemma_join_values(b);
}

} // verus!
