use ptrsx::builder::{chunk_plan, create_pointer_map, VirtualMemoryRead};
use ptrsx::codec::{decode_module_file, decode_pair_file, encode_module_file, encode_pairs};
use ptrsx::error::Error;
use ptrsx::index::Module;
use ptrsx::region::{modules_of, Page};
use ptrsx::scanner::{check_scan_params, PtrsxScanner};

/// A process image: one block of bytes at a base address.
struct Image {
    base: u64,
    bytes: Vec<u8>,
    short: Option<usize>,
    fail: bool,
}

impl VirtualMemoryRead for Image {
    fn read_at(&self, buf: &mut Vec<u8>, addr: u64) -> Result<usize, Error> {
        if self.fail {
            return Err(Error::Provider);
        }
        let off = (addr - self.base) as usize;
        let mut n = buf.len().min(self.bytes.len() - off);
        if let Some(s) = self.short {
            n = n.min(s);
        }
        buf[..n].copy_from_slice(&self.bytes[off..off + n]);
        Ok(n)
    }
}

fn image_with_self_pointer() -> Image {
    let mut bytes = vec![0u8; 4096];
    bytes[16..24].copy_from_slice(&0x1010u64.to_le_bytes());
    Image { base: 0x1000, bytes, short: None, fail: false }
}

#[test]
fn builder_finds_single_self_pointer() {
    let img = image_with_self_pointer();
    let pairs = create_pointer_map(&img, &[(0x1000, 4096)], true).unwrap();
    assert_eq!(pairs, vec![(0x1010, 0x1010)]);
}

#[test]
fn builder_end_of_region_is_outside() {
    let mut img = image_with_self_pointer();
    img.bytes[32..40].copy_from_slice(&0x2000u64.to_le_bytes());
    img.bytes[40..48].copy_from_slice(&0x1fffu64.to_le_bytes());
    let pairs = create_pointer_map(&img, &[(0x1000, 4096)], true).unwrap();
    assert_eq!(pairs, vec![(0x1010, 0x1010), (0x1028, 0x1fff)]);
}

#[test]
fn builder_unaligned_finds_misaligned_word() {
    let mut bytes = vec![0u8; 64];
    bytes[3..11].copy_from_slice(&0x1008u64.to_le_bytes());
    let img = Image { base: 0x1000, bytes, short: None, fail: false };
    let aligned = create_pointer_map(&img, &[(0x1000, 64)], true).unwrap();
    assert!(aligned.is_empty());
    let unaligned = create_pointer_map(&img, &[(0x1000, 64)], false).unwrap();
    assert_eq!(unaligned, vec![(0x1003, 0x1008)]);
}

#[test]
fn builder_short_read_examines_prefix() {
    let mut img = image_with_self_pointer();
    img.bytes[48..56].copy_from_slice(&0x1000u64.to_le_bytes());
    img.short = Some(40);
    let pairs = create_pointer_map(&img, &[(0x1000, 4096)], true).unwrap();
    assert_eq!(pairs, vec![(0x1010, 0x1010)]);
}

#[test]
fn builder_read_error_is_fatal() {
    let mut img = image_with_self_pointer();
    img.fail = true;
    assert_eq!(create_pointer_map(&img, &[(0x1000, 4096)], true), Err(Error::Provider));
}

#[test]
fn pair_file_round_trip() {
    let bytes = encode_pairs(&vec![(1, 2), (3, 4), (5, 6)]);
    assert_eq!(bytes.len(), 48);
    assert_eq!(&bytes[..16], &[1, 0, 0, 0, 0, 0, 0, 0, 2, 0, 0, 0, 0, 0, 0, 0]);
    assert_eq!(decode_pair_file(&bytes), Some(vec![(1, 2), (3, 4), (5, 6)]));
    let mut s = PtrsxScanner::new();
    s.load_pointer_map(&bytes).unwrap();
    assert_eq!(s.save_pointer_map(), bytes);
}

#[test]
fn pair_file_with_remainder_is_refused() {
    let mut bytes = encode_pairs(&vec![(1, 2)]);
    bytes.push(7);
    assert_eq!(decode_pair_file(&bytes), None);
    let mut s = PtrsxScanner::new();
    assert_eq!(s.load_pointer_map(&bytes), Err(Error::Format));
}

#[test]
fn later_pair_wins_on_load() {
    let bytes = encode_pairs(&vec![(1, 2), (1, 9)]);
    let mut s = PtrsxScanner::new();
    s.load_pointer_map(&bytes).unwrap();
    assert_eq!(s.save_pointer_map(), encode_pairs(&vec![(1, 9)]));
}

#[test]
fn module_file_lines() {
    let text = b"104b18000-104b38000 app[1]\r\nbad line\n10-20  name with space  \n1-2\n";
    let ms = decode_module_file(text);
    assert_eq!(ms.len(), 2);
    assert_eq!((ms[0].start, ms[0].end, ms[0].name.clone()), (0x104b18000, 0x104b38000, b"app[1]".to_vec()));
    assert_eq!((ms[1].start, ms[1].end, ms[1].name.clone()), (0x10, 0x20, b"name with space".to_vec()));
    let out = encode_module_file(&vec![Module { start: 0xABC, end: 0x1000, name: b"lib.so[0]".to_vec() }]);
    assert_eq!(out, b"abc-1000 lib.so[0]\n");
}

#[test]
fn module_overflowing_hex_is_skipped() {
    let ms = decode_module_file(b"10000000000000000-1 big\nffffffffffffffff-0 max\n");
    assert_eq!(ms.len(), 1);
    assert_eq!(ms[0].start, u64::MAX);
}

#[test]
fn modules_merge_and_count() {
    let page = |start: u64, end: u64, name: Option<&str>| Page { start, end, name: name.map(|n| n.as_bytes().to_vec()) };
    let pages = vec![
        page(0x1000, 0x2000, Some("/usr/bin/app")),
        page(0x2000, 0x3000, Some("/usr/bin/app")),
        page(0x3000, 0x4000, None),
        page(0x4000, 0x5000, Some("/opt/app")),
        page(0x5000, 0x6000, Some("/lib/libc.so")),
    ];
    let ms = modules_of(&pages);
    let got: Vec<(u64, u64, Vec<u8>)> = ms.into_iter().map(|m| (m.start, m.end, m.name)).collect();
    assert_eq!(
        got,
        vec![
            (0x1000, 0x3000, b"app[0]".to_vec()),
            (0x4000, 0x5000, b"app[1]".to_vec()),
            (0x5000, 0x6000, b"libc.so[0]".to_vec()),
        ]
    );
}

#[test]
fn create_pointer_map_file_writes_both() {
    let img = image_with_self_pointer();
    let pages = vec![Page { start: 0x1000, end: 0x2000, name: Some(b"/bin/app".to_vec()) }];
    let s = PtrsxScanner::new();
    let (info, bin) = s.create_pointer_map_file(&img, &pages, true).unwrap();
    assert_eq!(info, b"1000-2000 app[0]\n");
    assert_eq!(bin, encode_pairs(&vec![(0x1010, 0x1010)]));
}

#[test]
fn create_pointer_map_then_scan() {
    let img = image_with_self_pointer();
    let pages = vec![Page { start: 0x1000, end: 0x2000, name: Some(b"/bin/app".to_vec()) }];
    let mut s = PtrsxScanner::new();
    s.create_pointer_map(&img, &pages, true).unwrap();
    assert_eq!(s.points(), vec![0x1010]);
    let out = s
        .pointer_chain_scanner(ptrsx::scanner::UserParam {
            depth: 1,
            addr: 0x1010,
            range: (0, 0),
            use_module: true,
            node: None,
            max: None,
            last: None,
        })
        .unwrap();
    assert_eq!(out, b"app[0]+16\napp[0]+16@0\n");
}

#[test]
fn overlapping_pages_are_refused() {
    let img = image_with_self_pointer();
    let pages = vec![Page { start: 0x1000, end: 0x2000, name: None }, Page { start: 0x1800, end: 0x2800, name: None }];
    let mut s = PtrsxScanner::new();
    assert_eq!(s.create_pointer_map(&img, &pages, true), Err(Error::Params));
}

#[test]
fn chunk_plan_lists_reads() {
    assert_eq!(chunk_plan(&[(0x1000, 0x18000), (0x40000, 0x100)]), vec![
        (0x1000, 0x10000),
        (0x11000, 0x8000),
        (0x40000, 0x100),
    ]);
    assert_eq!(chunk_plan(&[(0x1000, 0)]), vec![]);
}

#[test]
fn empty_regions_build_nothing() {
    let img = image_with_self_pointer();
    assert_eq!(create_pointer_map(&img, &[(0x1000, 0)], true), Ok(vec![]));
    let pages = vec![Page { start: 0x1000, end: 0x1000, name: None }];
    let s = PtrsxScanner::new();
    let (_, bin) = s.create_pointer_map_file(&img, &pages, true).unwrap();
    assert!(bin.is_empty());
}

#[test]
fn scan_params_checked() {
    assert_eq!(check_scan_params(4, 3), Ok(()));
    assert_eq!(check_scan_params(4, 4), Err(Error::Params));
    assert_eq!(check_scan_params(33, 1), Err(Error::Params));
}
