use std::collections::BTreeMap;

use ptrsx::index::ReverseIndex;
use ptrsx::scan::{pointer_chain_scanner, WalkParams};
use ptrsx::scanner::{Params, PtrsxScanner, UserParam};

fn sample_forward() -> BTreeMap<u64, u64> {
    BTreeMap::from([
        (0x104B28008, 0x125F040A0),
        (0x104B28028, 0x125F04090),
        (0x104B281B0, 0x125F040E0),
        (0x125F04090, 0x125F04080),
    ])
}

fn sample_reverse(forward: &BTreeMap<u64, u64>) -> ReverseIndex {
    let mut reverse: BTreeMap<u64, Vec<u64>> = BTreeMap::new();
    for (&k, &v) in forward {
        reverse.entry(v).or_default().push(k);
    }
    ReverseIndex::from_map(&reverse)
}

fn pair_file(pairs: &[(u64, u64)]) -> Vec<u8> {
    let mut out = Vec::new();
    for &(k, v) in pairs {
        out.extend_from_slice(&k.to_le_bytes());
        out.extend_from_slice(&v.to_le_bytes());
    }
    out
}

#[test]
fn test_pointer_chain_scanner_s1() {
    let forward = sample_forward();
    let points = &forward
        .range(0x104B18000..=0x104B38000)
        .map(|(k, _)| k)
        .copied()
        .collect::<Vec<_>>();
    let reverse = sample_reverse(&forward);
    let params = WalkParams {
        base: 0x104B18000,
        depth: 4,
        target: 0x125F04080,
        node: 3,
        offset: (0, 16),
        points,
    };
    let writer = pointer_chain_scanner(&reverse, params).unwrap();
    assert_eq!(writer, b"65576@0@16@16@0\n65576@0@16@0\n");
}

#[test]
fn test_pointer_chain_scanner_s2() {
    let forward = sample_forward();
    let reverse = sample_reverse(&forward);
    let params = WalkParams {
        base: 0,
        depth: 4,
        target: 0x125F04080,
        node: 3,
        offset: (0, 16),
        points: &[0x125F04090],
    };
    let writer = pointer_chain_scanner(&reverse, params).unwrap();
    assert_eq!(writer, b"4931469456@16@16@0\n4931469456@16@16@16@0\n");
}

fn loaded_scanner() -> PtrsxScanner {
    let pairs: Vec<(u64, u64)> = sample_forward().into_iter().collect();
    let mut s = PtrsxScanner::new();
    s.load_pointer_map(&pair_file(&pairs)).unwrap();
    s
}

#[test]
fn scanner_with_range_matches_walk() {
    let s = loaded_scanner();
    let params = Params { depth: 4, target: 0x125F04080, node: 3, offset: (0, 16) };
    let out = s.scanner_with_range((0x104B18000, 0x104B38000), params).unwrap();
    assert_eq!(out, b"65576@0@16@16@0\n65576@0@16@0\n");
}

#[test]
fn scanner_with_address_matches_walk() {
    let s = loaded_scanner();
    let params = Params { depth: 4, target: 0x125F04080, node: 3, offset: (0, 16) };
    let out = s.scanner_with_address(&[0x125F04090], params).unwrap();
    assert_eq!(out, b"4931469456@16@16@0\n4931469456@16@16@16@0\n");
}

#[test]
fn scanner_with_address_refuses_unsorted_roots() {
    let s = loaded_scanner();
    let params = Params { depth: 4, target: 0x125F04080, node: 3, offset: (0, 16) };
    assert_eq!(s.scanner_with_address(&[5, 3], params), Err(ptrsx::error::Error::Params));
}

fn user_param(use_module: bool, max: Option<usize>) -> UserParam {
    UserParam {
        depth: 4,
        addr: 0x125F04080,
        range: (0, 16),
        use_module,
        node: Some(3),
        max,
        last: None,
    }
}

#[test]
fn module_relative_heads() {
    let mut s = loaded_scanner();
    s.load_modules_info(b"104b18000-104b38000 app[1]\n");
    let out = s.pointer_chain_scanner(user_param(true, None)).unwrap();
    assert_eq!(out, b"app[1]+65576@0@16@16@0\napp[1]+65576@0@16@0\n");
}

#[test]
fn module_relative_heads_uppercase_hex() {
    let mut s = loaded_scanner();
    s.load_modules_info(b"104B18000-104B38000 app[1]\n");
    let out = s.pointer_chain_scanner(user_param(true, None)).unwrap();
    assert_eq!(&out[..23], b"app[1]+65576@0@16@16@0\n");
}

#[test]
fn limit_stops_after_first_chain() {
    let mut s = loaded_scanner();
    s.load_modules_info(b"104b18000-104b38000 app[1]\n");
    let out = s.pointer_chain_scanner(user_param(false, Some(1))).unwrap();
    assert_eq!(out, b"4373774376@0@16@16@0\n");
}

#[test]
fn last_offset_filter() {
    let mut s = loaded_scanner();
    s.load_modules_info(b"104b18000-104b38000 app[1]\n");
    let mut p = user_param(true, None);
    p.last = Some(16);
    assert_eq!(s.pointer_chain_scanner(p).unwrap(), b"");
    let mut p = user_param(true, None);
    p.last = Some(0);
    assert_eq!(s.pointer_chain_scanner(p).unwrap(), b"app[1]+65576@0@16@16@0\napp[1]+65576@0@16@0\n");
}

#[test]
fn heads_outside_modules_are_skipped() {
    let mut s = loaded_scanner();
    s.load_modules_info(b"1000-2000 other[0]\nnot a module line\n");
    let out = s.pointer_chain_scanner(user_param(true, None)).unwrap();
    assert_eq!(out, b"");
}

#[test]
fn depth_over_limit_is_refused() {
    let s = loaded_scanner();
    let mut p = user_param(false, None);
    p.depth = 33;
    assert_eq!(s.pointer_chain_scanner(p), Err(ptrsx::error::Error::Params));
}

#[test]
fn exact_window_needs_exact_root() {
    let s = loaded_scanner();
    let params = Params { depth: 0, target: 0x125F04090, node: 0, offset: (0, 0) };
    assert_eq!(s.scanner_with_address(&[0x125F04090], params).unwrap(), b"4931469456\n");
    let params = Params { depth: 0, target: 0x125F04091, node: 0, offset: (0, 0) };
    assert_eq!(s.scanner_with_address(&[0x125F04090], params).unwrap(), b"");
}

#[test]
fn node_equal_depth_gives_full_length_chains() {
    let s = loaded_scanner();
    let params = Params { depth: 3, target: 0x125F04080, node: 3, offset: (0, 16) };
    let out = s.scanner_with_address(&[0x104B28028], params).unwrap();
    assert_eq!(out, b"4373774376@0@16@0\n");
}

#[test]
fn two_runs_agree() {
    let s = loaded_scanner();
    let params = Params { depth: 4, target: 0x125F04080, node: 1, offset: (0, 16) };
    let a = s.scanner_with_range((0x104B18000, 0x104B38000), params).unwrap();
    let b = s.scanner_with_range((0x104B18000, 0x104B38000), params).unwrap();
    assert_eq!(a, b);
}

#[test]
fn each_chain_resolves_to_target() {
    let forward = sample_forward();
    let s = loaded_scanner();
    let params = Params { depth: 4, target: 0x125F04080, node: 0, offset: (0, 16) };
    let out = s.scanner_with_address(&[0x104B28028, 0x125F04090], params).unwrap();
    let text = String::from_utf8(out).unwrap();
    assert!(text.lines().count() >= 3);
    for line in text.lines() {
        let mut parts = line.split('@');
        let mut addr: u64 = parts.next().unwrap().parse().unwrap();
        for o in parts {
            let o: i64 = o.parse().unwrap();
            addr = forward[&addr].wrapping_add(o as u64);
        }
        assert_eq!(addr, 0x125F04080, "line {line}");
    }
}

#[test]
fn depth_zero_reports_only_target() {
    let s = loaded_scanner();
    let params = Params { depth: 0, target: 0x125F04088, node: 0, offset: (0, 16) };
    assert_eq!(s.scanner_with_address(&[0x125F04080], params).unwrap(), b"4931469448\n");
    let params = Params { depth: 0, target: 0x125F04088, node: 1, offset: (0, 16) };
    assert_eq!(s.scanner_with_address(&[0x125F04080], params).unwrap(), b"");
}
