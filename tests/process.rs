use ptrsx::builder::VirtualMemoryRead;
use ptrsx::codec::hex_encode;
use ptrsx::error::Error;
use ptrsx::region::linux::{parse_maps, parse_maps_line_in};
use ptrsx::region::Page;
use ptrsx::resolve::{add_signed, find_base_address, get_pointer_chain_address, locate_chain};

struct Image {
    base: u64,
    bytes: Vec<u8>,
}

impl VirtualMemoryRead for Image {
    fn read_at(&self, buf: &mut Vec<u8>, addr: u64) -> Result<usize, Error> {
        if addr < self.base || addr >= self.base + self.bytes.len() as u64 {
            return Err(Error::Provider);
        }
        let off = (addr - self.base) as usize;
        let n = buf.len().min(self.bytes.len() - off);
        buf[..n].copy_from_slice(&self.bytes[off..off + n]);
        Ok(n)
    }
}

fn pages() -> Vec<Page> {
    let page = |start: u64, end: u64, name: &str| Page { start, end, name: Some(name.as_bytes().to_vec()) };
    vec![
        page(0x1000, 0x2000, "/bin/app"),
        page(0x2000, 0x3000, "/bin/app"),
        page(0x5000, 0x6000, "/opt/app"),
    ]
}

#[test]
fn base_address_by_name_and_index() {
    let ps = pages();
    assert_eq!(find_base_address(&ps, b"app", 0), Some(0x1000));
    assert_eq!(find_base_address(&ps, b"app", 1), Some(0x5000));
    assert_eq!(find_base_address(&ps, b"app", 2), None);
    assert_eq!(find_base_address(&ps, b"lib", 0), None);
}

#[test]
fn chain_parts() {
    let ps = pages();
    assert_eq!(locate_chain(&ps, "app[1]+16.8.-4"), Some((0x5010, vec![8, -4])));
    assert_eq!(locate_chain(&ps, "app[0]+32"), Some((0x1020, vec![])));
    assert_eq!(locate_chain(&ps, "app[0]+x"), None);
    assert_eq!(locate_chain(&ps, "app+16"), None);
    assert_eq!(locate_chain(&ps, "app[0]+16.a"), None);
}

#[test]
fn chain_follows_memory() {
    let ps = pages();
    let mut bytes = vec![0u8; 0x2000];
    bytes[0x10..0x18].copy_from_slice(&0x1100u64.to_le_bytes());
    bytes[0x108..0x110].copy_from_slice(&0x1200u64.to_le_bytes());
    let img = Image { base: 0x1000, bytes };
    assert_eq!(get_pointer_chain_address(&img, &ps, "app[0]+16.8.-4"), Some(0x11fc));
    assert_eq!(get_pointer_chain_address(&img, &ps, "app[0]+16"), Some(0x1010));
    assert_eq!(get_pointer_chain_address(&img, &ps, "app[1]+16.8"), None);
}

#[test]
fn signed_addition() {
    assert_eq!(add_signed(10, -10), Some(0));
    assert_eq!(add_signed(10, -11), None);
    assert_eq!(add_signed(u64::MAX, 1), None);
    assert_eq!(add_signed(u64::MAX, i64::MIN), Some(u64::MAX - (1u64 << 63)));
}

#[test]
fn hex_of_bytes() {
    assert_eq!(hex_encode(&[0x00, 0xab, 0x7f]), b"00AB7F");
    assert_eq!(hex_encode(&[]), b"");
}

#[test]
fn maps_lines() {
    let text = b"00400000-00452000 r-xp 00000000 08:02 173521      /usr/bin/dbus-daemon\n\
7ffd2a1f3000-7ffd2a214000 rw-p 00000000 00:00 0                          [stack]\n\
7f0a-7f0b rw-p 00000000 00:00 0 \n\
garbage\n";
    let ps = parse_maps(text);
    assert_eq!(ps.len(), 3);
    assert_eq!((ps[0].start(), ps[0].end()), (0x400000, 0x452000));
    assert!(ps[0].is_read() && !ps[0].is_write() && ps[0].is_exec());
    assert_eq!(ps[0].name(), Some(&b"/usr/bin/dbus-daemon"[..]));
    assert_eq!(ps[0].inode, 173521);
    assert_eq!(ps[1].name(), Some(&b"[stack]"[..]));
    assert_eq!(ps[1].size(), 0x21000);
    assert!(ps[1].is_write());
    assert_eq!(ps[2].name(), None);
    let line = b"1000-2000 rw-p 0 00:00 0";
    assert!(parse_maps_line_in(line, 0, line.len()).is_none());
}

#[test]
fn line_intersection() {
    let a = b"app[0]+16@8\napp[1]+4\r\nx\napp[0]+16@8\n";
    let b = b"x\napp[0]+16@8\ny";
    assert_eq!(ptrsx::diff::intersect_lines(a, b), b"app[0]+16@8\nx\n");
    assert_eq!(ptrsx::diff::intersect_lines(b"", b"x\n"), b"");
    assert_eq!(ptrsx::diff::intersect_lines(b"\n\nq\n", b"\n"), b"\n");
}

#[test]
fn chain_step_overflow_gives_none() {
    let ps = pages();
    let mut bytes = vec![0u8; 0x2000];
    bytes[0x10..0x18].copy_from_slice(&u64::MAX.to_le_bytes());
    let img = Image { base: 0x1000, bytes };
    assert_eq!(get_pointer_chain_address(&img, &ps, "app[0]+16.1"), None);
    assert_eq!(get_pointer_chain_address(&img, &ps, "app[0]+16.-1"), Some(u64::MAX - 1));
}
