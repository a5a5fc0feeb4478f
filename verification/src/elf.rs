//! Listing the section names of an ELF64 object (used to check that the
//! kernel object has its programs and maps).
use vstd::prelude::*;

use crate::abi::{le_value, read_le_u32, read_le_u64};
use crate::handler::c_len;

verus! {

/// Replacement-decoded text of bytes (std's `String::from_utf8_lossy`).
pub uninterp spec fn utf8_lossy(b: Seq<u8>) -> Seq<char>;

/// Decodes bytes as UTF-8, replacing invalid sequences with U+FFFD
/// (`String::from_utf8_lossy`). Empty exactly for empty input, since
/// every byte yields a character or part of one.
#[verifier::external_body]
pub(crate) fn lossy_string(b: &[u8]) -> (r: String)
    ensures
        r@ == utf8_lossy(b@),
        r@.len() == 0 <==> b@.len() == 0,
{
    String::from_utf8_lossy(b).into_owned()
}

/// Reads a little-endian `u16` at `off`.
pub fn read_le_u16(s: &[u8], off: usize) -> (r: u16)
    requires
        off + 2 <= s@.len(),
    ensures
        r as nat == le_value(s@, off as int, 2),
{
    let b0 = s[off] as u16;
    let b1 = s[off + 1] as u16;
    proof {
        reveal_with_fuel(le_value, 3);
    }
    assert(b0 < 256 && b1 < 256 ==> b0 | (b1 << 8u16) == b0 + b1 * 256) by (bit_vector);
    b0 | (b1 << 8u16)
}

/// Header fields the listing uses.
pub open spec fn shoff(o: Seq<u8>) -> nat {
    le_value(o, 0x28, 8)
}

pub open spec fn shentsize(o: Seq<u8>) -> nat {
    le_value(o, 0x3a, 2)
}

pub open spec fn shnum(o: Seq<u8>) -> nat {
    le_value(o, 0x3c, 2)
}

pub open spec fn shstrndx(o: Seq<u8>) -> nat {
    le_value(o, 0x3e, 2)
}

/// Offset of the section-name string table.
pub open spec fn shstr_off(o: Seq<u8>) -> nat {
    le_value(o, (shoff(o) + shstrndx(o) * shentsize(o) + 0x18) as int, 8)
}

/// Offset of the name of section `i`.
pub open spec fn name_start(o: Seq<u8>, i: nat) -> nat {
    shstr_off(o) + le_value(o, (shoff(o) + i * shentsize(o)) as int, 4)
}

/// Length of the name of section `i`: up to the next NUL, or zero when
/// the rest of the object has none.
pub open spec fn name_len(o: Seq<u8>, i: nat) -> nat {
    let rest = o.skip(name_start(o, i) as int);
    if c_len(rest) < rest.len() {
        c_len(rest)
    } else {
        0
    }
}

/// The object starts with the ELF magic and is larger than a header.
pub open spec fn is_elf(o: Seq<u8>) -> bool {
    o.len() > 64 && o[0] == 0x7fu8 && o[1] == 0x45u8 && o[2] == 0x4cu8 && o[3] == 0x46u8
}

/// Every offset the listing reads lies inside the object and fits a
/// `usize`.
pub open spec fn sections_readable(o: Seq<u8>) -> bool {
    &&& shoff(o) + shstrndx(o) * shentsize(o) + 0x18 + 8 <= o.len()
    &&& shstr_off(o) <= usize::MAX
    &&& forall|i: nat|
        i < shnum(o) ==> {
            &&& #[trigger] (shoff(o) + i * shentsize(o)) + 4 <= o.len()
            &&& name_start(o, i) <= o.len()
        }
}

/// Names of sections `0..n`, empty ones left out.
pub open spec fn section_names(o: Seq<u8>, n: nat) -> Seq<Seq<char>>
    decreases n,
{
    if n == 0 {
        seq![]
    } else {
        let prev = section_names(o, (n - 1) as nat);
        let start = name_start(o, (n - 1) as nat);
        let name = utf8_lossy(o.subrange(start as int, (start + name_len(o, (n - 1) as nat)) as int));
        if name.len() == 0 {
            prev
        } else {
            prev.push(name)
        }
    }
}

/// Lists the non-empty section names of an ELF64 object, in section
/// order. Fails when the object is not ELF or not ELF64.
pub fn parse_elf_section_names(obj: &[u8]) -> (r: Result<Vec<String>, String>)
    requires
        is_elf(obj@) && obj@[4] == 2u8 ==> sections_readable(obj@),
    ensures
        !is_elf(obj@) ==> (r matches Err(m) && m@ == "不是 ELF 对象"@),
        is_elf(obj@) && obj@[4] != 2u8 ==> (r matches Err(m) && m@ == "仅支持 ELF64"@),
        is_elf(obj@) && obj@[4] == 2u8 ==> (r matches Ok(v) && v@.map_values(|s: String| s@)
            == section_names(obj@, shnum(obj@))),
{
    if !(obj.len() > 64 && obj[0] == 0x7f && obj[1] == 0x45 && obj[2] == 0x4c && obj[3] == 0x46) {
        return Err("不是 ELF 对象".to_owned());
    }
    if obj[4] != 2 {
        return Err("仅支持 ELF64".to_owned());
    }
    let ghost o = obj@;
    let shoff_v = read_le_u64(obj, 0x28);
    let shentsize_v = read_le_u16(obj, 0x3a);
    let shnum_v = read_le_u16(obj, 0x3c);
    let shstrndx_v = read_le_u16(obj, 0x3e);
    let shoff_u = shoff_v as usize;
    let shstr_hdr = shoff_u + (shstrndx_v as usize) * (shentsize_v as usize);
    let shstr = read_le_u64(obj, shstr_hdr + 0x18) as usize;
    let olen = obj.len();
    let mut out: Vec<String> = Vec::new();
    let mut i: u16 = 0;
    while i < shnum_v
        invariant
            o == obj@,
            olen == o.len(),
            sections_readable(o),
            shoff_u as nat == shoff(o),
            shentsize_v as nat == shentsize(o),
            shnum_v as nat == shnum(o),
            shstr as nat == shstr_off(o),
            i <= shnum_v,
            out@.map_values(|s: String| s@) == section_names(o, i as nat),
        decreases shnum_v - i,
    {
        assert((shoff(o) + (i as nat) * shentsize(o)) + 4 <= o.len());
        assert(name_start(o, i as nat) <= o.len());
        assert((i as usize) * (shentsize_v as usize) == (i as nat) * shentsize(o));
        let h = shoff_u + (i as usize) * (shentsize_v as usize);
        let nameoff = read_le_u32(obj, h) as usize;
        let start = shstr + nameoff;
        let mut end: usize = 0;
        let mut k = start;
        let ghost rest = o.skip(start as int);
        let mut hit = false;
        while k < obj.len() && !hit
            invariant
                o == obj@,
                start <= k <= o.len(),
                rest == o.skip(start as int),
                hit ==> c_len(rest) == k - start && k < o.len(),
                !hit ==> c_len(rest.take(k - start)) == k - start,
                !hit ==> forall|j: int| 0 <= j < k - start ==> rest[j] != 0u8,
            decreases o.len() - k + if hit { 0int } else { 1int },
        {
            proof {
                assert(rest.take(k - start + 1).drop_last() =~= rest.take(k - start));
            }
            if obj[k] == 0 {
                proof {
                    crate::handler::lemma_c_len_first_nul(rest, k - start);
                }
                hit = true;
            } else {
                k += 1;
            }
        }
        if hit {
            end = k - start;
        } else {
            proof {
                assert(rest.take(k - start) =~= rest);
            }
        }
        assert(end == name_len(o, i as nat));
        let name = lossy_string(&obj[start..start + end]);
        let ghost prev = out@.map_values(|s: String| s@);
        if !name.as_str().is_empty() {
            out.push(name);
            assert(out@.map_values(|s: String| s@) =~= prev.push(name@));
        }
        i += 1;
    }
    Ok(out)
}

/// Whether every offset the section listing reads lies inside the
/// object, so that [`parse_elf_section_names`] can be called on it.
pub fn sections_in_bounds(obj: &[u8]) -> (r: bool)
    ensures
        r == (is_elf(obj@) && obj@[4] == 2u8 ==> sections_readable(obj@)),
{
    if !(obj.len() > 64 && obj[0] == 0x7f && obj[1] == 0x45 && obj[2] == 0x4c && obj[3] == 0x46) {
        return true;
    }
    if obj[4] != 2 {
        return true;
    }
    let ghost o = obj@;
    let len = obj.len() as u128;
    let off_v = read_le_u64(obj, 0x28) as u128;
    let ent_v = read_le_u16(obj, 0x3a) as u128;
    let num_v = read_le_u16(obj, 0x3c);
    let ndx_v = read_le_u16(obj, 0x3e) as u128;
    assert(ndx_v * ent_v <= 0xffff * 0xffff) by (nonlinear_arith)
        requires
            ndx_v <= 0xffff,
            ent_v <= 0xffff,
    ;
    let hdr = off_v + ndx_v * ent_v + 0x18;
    if hdr + 8 > len {
        return false;
    }
    let shstr = read_le_u64(obj, hdr as usize) as u128;
    if shstr > usize::MAX as u128 {
        return false;
    }
    assert(shstr as nat == shstr_off(o));
    let mut i: u16 = 0;
    while i < num_v
        invariant
            o == obj@,
            is_elf(o) && o[4] == 2u8,
            len == o.len(),
            len <= usize::MAX,
            off_v == shoff(o),
            ent_v == shentsize(o),
            num_v == shnum(o),
            shstr == shstr_off(o),
            shstr <= usize::MAX,
            i <= num_v,
            ent_v <= 0xffff,
            off_v <= 0xffff_ffff_ffff_ffff,
            forall|j: nat|
                j < i ==> {
                    &&& #[trigger] (shoff(o) + j * shentsize(o)) + 4 <= o.len()
                    &&& name_start(o, j) <= o.len()
                },
        decreases num_v - i,
    {
        assert((i as u128) * ent_v <= 0xffff * 0xffff) by (nonlinear_arith)
            requires
                i <= 0xffff,
                ent_v <= 0xffff,
        ;
        let h = off_v + (i as u128) * ent_v;
        assert(h == shoff(o) + (i as nat) * shentsize(o));
        if h + 4 > len {
            proof {
                if sections_readable(o) {
                    assert((shoff(o) + (i as nat) * shentsize(o)) + 4 <= o.len());
                }
            }
            return false;
        }
        let nameoff = read_le_u32(obj, h as usize) as u128;
        assert(shstr + nameoff == name_start(o, i as nat));
        if shstr + nameoff > len {
            proof {
                if sections_readable(o) {
                    assert((shoff(o) + (i as nat) * shentsize(o)) + 4 <= o.len());
                    assert(name_start(o, i as nat) <= o.len());
                }
            }
            return false;
        }
        i += 1;
    }
    true
}

/// Sections the kernel object must have: both tracepoint programs and the
/// maps.
pub open spec fn required_sections() -> Seq<Seq<char>> {
    seq!["raw_tp/sys_enter"@, "raw_tp/sys_exit"@, "maps"@]
}

/// The first required section missing from `names`, if any.
pub fn first_missing_section(names: &Vec<String>) -> (r: Option<&'static str>)
    ensures
        match r {
            Some(m) => exists|k: int|
                0 <= k < 3 && m@ == required_sections()[k] && !names@.map_values(
                    |s: String| s@,
                ).contains(required_sections()[k]) && forall|j: int|
                    0 <= j < k ==> names@.map_values(|s: String| s@).contains(
                        #[trigger] required_sections()[j],
                    ),
            None => forall|k: int|
                0 <= k < 3 ==> names@.map_values(|s: String| s@).contains(
                    #[trigger] required_sections()[k],
                ),
        },
{
    let want: [&'static str; 3] = ["raw_tp/sys_enter", "raw_tp/sys_exit", "maps"];
    let ghost nv = names@.map_values(|s: String| s@);
    proof {
        assert(want@.map_values(|w: &str| w@) =~= required_sections());
    }
    let mut k: usize = 0;
    while k < 3
        invariant
            k <= 3,
            nv == names@.map_values(|s: String| s@),
            want@.map_values(|w: &str| w@) == required_sections(),
            forall|j: int| 0 <= j < k ==> nv.contains(#[trigger] required_sections()[j]),
        decreases 3 - k,
    {
        let w = want[k];
        assert(w@ == required_sections()[k as int]);
        let mut found = false;
        let mut i: usize = 0;
        while i < names.len()
            invariant
                i <= names@.len(),
                nv == names@.map_values(|s: String| s@),
                found <==> exists|j: int| 0 <= j < i && nv[j] == w@,
            decreases names@.len() - i,
        {
            let hit = crate::text::str_eq(names[i].as_str(), w);
            assert(nv[i as int] == names@[i as int]@);
            if hit {
                found = true;
            }
            i += 1;
            proof {
                if !hit {
                    assert forall|j: int| 0 <= j < i && nv[j] == w@ implies j < i - 1 by {
                    }
                }
            }
        }
        if !found {
            assert(!nv.contains(w@));
            return Some(w);
        }
        assert(nv[choose|j: int| 0 <= j < i && nv[j] == w@] == w@);
        k += 1;
    }
    None
}

} // verus!
