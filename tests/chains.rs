use std::collections::BTreeMap;

use ptrsx::index::ReverseIndex;
use ptrsx::region::{android, linux, macos, windows};
use ptrsx::scan::{try_pointer_chain_scan, Param};

fn reverse() -> ReverseIndex {
    let forward: BTreeMap<u64, u64> = BTreeMap::from([
        (0x104B28008, 0x125F040A0),
        (0x104B28028, 0x125F04090),
        (0x104B281B0, 0x125F040E0),
        (0x125F04090, 0x125F04080),
    ]);
    let entries: Vec<(u64, u64)> = forward.into_iter().collect();
    ReverseIndex::from_entries(&entries)
}

#[test]
fn collected_chains_carry_links() {
    let rev = reverse();
    let param = Param { depth: 4, addr: 0x125F04080, range: (0, 16) };
    let chains = try_pointer_chain_scan(&rev, &[0x104B28028], param, None).unwrap();
    let offsets: Vec<Vec<i64>> = chains.iter().map(|c| c.data()).collect();
    assert_eq!(offsets, vec![vec![0, 16, 16, 0], vec![0, 16, 0], vec![0, 0]]);
    let c = &chains[1];
    assert_eq!(c.addr(), 0x104B28028);
    assert_eq!(c.len(), 3);
    assert_eq!(c.first(), Some(0));
    assert_eq!(c.last(), Some(0));
    assert_eq!(c.raw_data()[0], (0x125F04080, 0));
    assert_eq!(c.raw_data()[1], (0x125F04080, 16));
}

#[test]
fn collected_chains_respect_limit() {
    let rev = reverse();
    let param = Param { depth: 4, addr: 0x125F04080, range: (0, 16) };
    let chains = try_pointer_chain_scan(&rev, &[0x104B28028], param, Some(1)).unwrap();
    assert_eq!(chains.len(), 1);
    assert_eq!(chains[0].data(), vec![0, 16, 16, 0]);
}

#[test]
fn ref_cycle_drops_repeated_links() {
    let rev = reverse();
    let param = Param { depth: 4, addr: 0x125F04080, range: (0, 16) };
    let chains = try_pointer_chain_scan(&rev, &[0x104B28028], param, None).unwrap();
    // links (innermost first): 0x..80/0, 0x..80/16, 0x..80/16, 0x..90/0
    assert_eq!(chains[0].ref_cycle(), Some(vec![0, 16, 0]));
    // links: 0x..80/0, 0x..80/16, 0x..90/0
    assert_eq!(chains[1].ref_cycle(), Some(vec![0, 0]));
    // links: 0x..80/0, 0x..90/0
    assert_eq!(chains[2].ref_cycle(), None);
}

#[test]
fn empty_chain_accessors() {
    let rev = reverse();
    let param = Param { depth: 0, addr: 0x104B28028, range: (0, 0) };
    let chains = try_pointer_chain_scan(&rev, &[0x104B28028], param, None).unwrap();
    assert_eq!(chains.len(), 1);
    assert_eq!(chains[0].first(), None);
    assert_eq!(chains[0].last(), None);
    assert_eq!(chains[0].ref_cycle(), None);
    assert!(chains[0].data().is_empty());
}

#[test]
fn linux_filter() {
    assert!(linux::mapping_filter(None, None));
    assert!(linux::mapping_filter(Some(b"[stack]"), None));
    assert!(linux::mapping_filter(Some(b"[heap]"), None));
    assert!(!linux::mapping_filter(Some(b"/memfd:x (deleted)"), None));
    assert!(!linux::mapping_filter(Some(b"/dev/zero"), Some(b"\x7fELF\x02\x01\x01\x00")));
    assert!(!linux::mapping_filter(Some(b"[vvar]"), None));
    assert!(linux::mapping_filter(Some(b"/device/x"), Some(b"\x7fELF\x02\x01\x01\x00")));
    assert!(!linux::mapping_filter(Some(b"/usr/lib/x.so"), Some(b"\x7fELF")));
    assert!(!linux::mapping_filter(Some(b"/usr/lib/x.so"), Some(b"#!/bin/sh")));
    assert!(!linux::mapping_filter(Some(b"/usr/lib/x.so"), None));
    assert!(linux::needs_header_exec(b"/usr/lib/x.so"));
    assert!(!linux::needs_header_exec(b"[heap]"));
}

#[test]
fn android_filter() {
    let elf = [0x7fu8; 64];
    let mut elf = elf.to_vec();
    elf[1..4].copy_from_slice(b"ELF");
    assert!(android::mapping_filter(Some(b"[anon:libc_malloc]"), None));
    assert!(!android::mapping_filter(Some(b"/system/lib64/libc.so"), Some(&elf)));
    assert!(!android::mapping_filter(Some(b"/data/app/base.odex"), Some(&elf)));
    assert!(!android::mapping_filter(Some(b"/data/app/base.dex"), Some(&elf)));
    assert!(android::mapping_filter(Some(b"/data/app/.dex"), Some(&elf)));
    assert!(android::mapping_filter(Some(b"/data/app/lib.so"), Some(&elf)));
    assert!(!android::mapping_filter(Some(b"/data/app/lib.so"), Some(&elf[..8])));
}

#[test]
fn macos_filter() {
    assert!(macos::mapping_filter(None));
    assert!(!macos::mapping_filter(Some(b"/usr/lib/dyld")));
    assert!(!macos::mapping_filter(Some(b"/System/Library/Frameworks/x")));
    assert!(!macos::mapping_filter(Some(b"/private/var/x")));
    assert!(!macos::mapping_filter(Some(b"relative")));
    assert!(macos::mapping_filter(Some(b"/Applications/App.app/Contents/MacOS/App")));
}

#[test]
fn windows_filter() {
    let pe = b"MZ\x90\x00\x03\x00\x00\x00";
    assert!(!windows::mapping_filter(true, None, None));
    assert!(windows::mapping_filter(false, None, None));
    assert!(!windows::mapping_filter(false, Some(b"\\Device\\HarddiskVolume3\\Windows\\System32\\a.dll"), Some(pe)));
    assert!(windows::mapping_filter(false, Some(b"\\Device\\HarddiskVolume3\\Games\\app.exe"), Some(pe)));
    assert!(!windows::mapping_filter(false, Some(b"app.exe"), Some(pe)));
    assert!(!windows::mapping_filter(false, Some(b"C:\\Games\\app.exe"), Some(b"ELF\x00\x00\x00\x00\x00")));
}
