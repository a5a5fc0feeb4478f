use ebpf_monitor::elf::{first_missing_section, parse_elf_section_names};

fn elf_with(names: &[&str]) -> Vec<u8> {
    let mut strtab = vec![0u8];
    let mut offs = Vec::new();
    for n in names {
        offs.push(strtab.len() as u32);
        strtab.extend_from_slice(n.as_bytes());
        strtab.push(0);
    }
    let shstr_name = strtab.len() as u32;
    strtab.extend_from_slice(b".shstrtab\0");
    let str_off = 64usize;
    let shoff = str_off + strtab.len();
    let shnum = names.len() + 2;
    let mut o = vec![0u8; shoff + shnum * 64];
    o[..4].copy_from_slice(b"\x7fELF");
    o[4] = 2;
    o[0x28..0x30].copy_from_slice(&(shoff as u64).to_le_bytes());
    o[0x3a..0x3c].copy_from_slice(&64u16.to_le_bytes());
    o[0x3c..0x3e].copy_from_slice(&(shnum as u16).to_le_bytes());
    o[0x3e..0x40].copy_from_slice(&((shnum - 1) as u16).to_le_bytes());
    o[str_off..str_off + strtab.len()].copy_from_slice(&strtab);
    for (i, off) in offs.iter().enumerate() {
        let h = shoff + (i + 1) * 64;
        o[h..h + 4].copy_from_slice(&off.to_le_bytes());
    }
    let h = shoff + (shnum - 1) * 64;
    o[h..h + 4].copy_from_slice(&shstr_name.to_le_bytes());
    o[h + 0x18..h + 0x20].copy_from_slice(&(str_off as u64).to_le_bytes());
    o
}

#[test]
fn lists_section_names_in_order() {
    let obj = elf_with(&["raw_tp/sys_enter", "raw_tp/sys_exit", "maps"]);
    let names = parse_elf_section_names(&obj).unwrap();
    assert_eq!(names, vec!["raw_tp/sys_enter", "raw_tp/sys_exit", "maps", ".shstrtab"]);
    assert_eq!(first_missing_section(&names), None);
}

#[test]
fn reports_missing_section() {
    let obj = elf_with(&["raw_tp/sys_enter", "maps"]);
    let names = parse_elf_section_names(&obj).unwrap();
    assert_eq!(first_missing_section(&names), Some("raw_tp/sys_exit"));
    assert_eq!(first_missing_section(&vec![]), Some("raw_tp/sys_enter"));
}

#[test]
fn rejects_non_elf_and_elf32() {
    assert_eq!(parse_elf_section_names(b"hello").unwrap_err(), "不是 ELF 对象");
    let mut obj = elf_with(&["maps"]);
    obj[0] = 0;
    assert_eq!(parse_elf_section_names(&obj).unwrap_err(), "不是 ELF 对象");
    let mut obj32 = elf_with(&["maps"]);
    obj32[4] = 1;
    assert_eq!(parse_elf_section_names(&obj32).unwrap_err(), "仅支持 ELF64");
}

use ebpf_monitor::elf::sections_in_bounds;

#[test]
fn bounds_check_of_section_table() {
    let obj = elf_with(&["maps"]);
    assert!(sections_in_bounds(&obj));
    assert!(sections_in_bounds(b"not elf"));
    let mut cut = obj.clone();
    cut.truncate(cut.len() - 40);
    assert!(!sections_in_bounds(&cut));
    let mut bad = obj.clone();
    let shoff = u64::from_le_bytes(bad[0x28..0x30].try_into().unwrap()) as usize;
    let h = shoff + 64;
    bad[h..h + 4].copy_from_slice(&0xffff_fff0u32.to_le_bytes());
    assert!(!sections_in_bounds(&bad));
}
