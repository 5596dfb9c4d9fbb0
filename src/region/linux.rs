//! Classification on Linux.

use vstd::prelude::*;
use crate::cmd::{dec_in, parse_dec, parse_radix16, radix16_in};
use crate::codec::{find_byte, find_in, is_space, lemma_find_byte, strip_cr};
use super::{elf_magic, elf_magic_exec, equals, has_prefix, has_prefix_exec, path_under, path_under_exec};

verus! {

/// Anonymous stack and heap regions, and memfd-backed ones.
pub open spec fn stack_name() -> Seq<u8> {
    seq![91u8, 115, 116, 97, 99, 107, 93]
}

pub open spec fn heap_name() -> Seq<u8> {
    seq![91u8, 104, 101, 97, 112, 93]
}

pub open spec fn memfd_prefix() -> Seq<u8> {
    seq![47u8, 109, 101, 109, 102, 100, 58]
}

pub open spec fn dev_dir() -> Seq<u8> {
    seq![47u8, 100, 101, 118]
}

/// Whether a region may hold pointers: anonymous regions, the stack and the
/// heap always; memfd regions and devices never; other files when their
/// first eight bytes could be read (`header`) and start an ELF image.
pub open spec fn keeps(name: Option<Seq<u8>>, header: Option<Seq<u8>>) -> bool {
    match name {
        None => true,
        Some(n) => if n == stack_name() || n == heap_name() {
            true
        } else if has_prefix(n, memfd_prefix()) {
            false
        } else if !(n.len() > 0 && n[0] == 47) || path_under(n, dev_dir()) {
            false
        } else {
            match header {
                Some(h) => h.len() >= 8 && has_prefix(h, elf_magic()),
                None => false,
            }
        },
    }
}

/// Whether a region should be read at all before its backing file is opened:
/// false exactly where the name alone decides.
pub open spec fn needs_header(name: Seq<u8>) -> bool {
    !(name == stack_name() || name == heap_name()) && !has_prefix(name, memfd_prefix()) && (name.len() > 0
        && name[0] == 47) && !path_under(name, dev_dir())
}

/// Decides whether a region counts, from its backing name and the first bytes
/// of the backing file (None where it could not be read).
pub fn mapping_filter(name: Option<&[u8]>, header: Option<&[u8]>) -> (r: bool)
    ensures
        r == keeps(
            match name {
                Some(n) => Some(n@),
                None => None,
            },
            match header {
                Some(h) => Some(h@),
                None => None,
            },
        ),
{
    let n = match name {
        None => {
            return true;
        },
        Some(n) => n,
    };
    if !needs_header_exec(n) {
        let stack: Vec<u8> = vec![91u8, 115, 116, 97, 99, 107, 93];
        let heap: Vec<u8> = vec![91u8, 104, 101, 97, 112, 93];
        assert(stack@ =~= stack_name());
        assert(heap@ =~= heap_name());
        return equals(n, stack.as_slice()) || equals(n, heap.as_slice());
    }
    match header {
        Some(h) => {
            let magic = elf_magic_exec();
            h.len() >= 8 && has_prefix_exec(h, magic.as_slice())
        },
        None => false,
    }
}

/// Whether the backing file must be read to decide.
pub fn needs_header_exec(name: &[u8]) -> (r: bool)
    ensures
        r == needs_header(name@),
{
    let stack: Vec<u8> = vec![91u8, 115, 116, 97, 99, 107, 93];
    let heap: Vec<u8> = vec![91u8, 104, 101, 97, 112, 93];
    let memfd: Vec<u8> = vec![47u8, 109, 101, 109, 102, 100, 58];
    let dev: Vec<u8> = vec![47u8, 100, 101, 118];
    assert(stack@ =~= stack_name());
    assert(heap@ =~= heap_name());
    assert(memfd@ =~= memfd_prefix());
    assert(dev@ =~= dev_dir());
    !(equals(name, stack.as_slice()) || equals(name, heap.as_slice())) && !has_prefix_exec(name, memfd.as_slice())
        && (name.len() > 0 && name[0] == 47) && !path_under_exec(name, dev.as_slice())
}

/// The text before the first space and the text after it.
pub open spec fn split_space(s: Seq<u8>) -> Option<(Seq<u8>, Seq<u8>)> {
    match find_byte(s, 32) {
        Some(p) => Some((s.subrange(0, p), s.subrange(p + 1, s.len() as int))),
        None => None,
    }
}

/// `s` without leading ASCII whitespace.
pub open spec fn trim_start(s: Seq<u8>) -> Seq<u8>
    decreases s.len(),
{
    if s.len() > 0 && is_space(s[0]) {
        trim_start(s.drop_first())
    } else {
        s
    }
}

/// The range field `START-END`: hexadecimal, split at the first `-`; text after
/// a second `-` is ignored.
pub open spec fn parse_range(s: Seq<u8>) -> Option<(u64, u64)> {
    match find_byte(s, 45) {
        None => None,
        Some(d) => {
            let rest = s.subrange(d + 1, s.len() as int);
            let e = match find_byte(rest, 45) {
                Some(q) => rest.subrange(0, q),
                None => rest,
            };
            match (parse_radix16(s.subrange(0, d)), parse_radix16(e)) {
                (Some(a), Some(b)) => Some((a, b)),
                _ => None,
            }
        },
    }
}

/// A line of a process's memory map: range, permissions, offset, device,
/// inode and, after any spaces, the backing name if there is one.
pub open spec fn parse_maps_line(l: Seq<u8>) -> Option<
    (u64, u64, Seq<u8>, u64, Seq<u8>, u64, Option<Seq<u8>>),
> {
    match split_space(l) {
        None => None,
        Some((range, r1)) => match split_space(r1) {
            None => None,
            Some((flags, r2)) => match split_space(r2) {
                None => None,
                Some((off, r3)) => match split_space(r3) {
                    None => None,
                    Some((dev, r4)) => match split_space(r4) {
                        None => None,
                        Some((inode, rest)) => match (parse_range(range), parse_radix16(off), parse_dec(inode)) {
                            (Some((a, b)), Some(o), Some(n)) => {
                                let name = trim_start(rest);
                                Some((a, b, flags, o, dev, n, if name.len() == 0 { None } else { Some(name) }))
                            },
                            _ => None,
                        },
                    },
                },
            },
        },
    }
}

/// A region of a Linux process's memory map.
pub struct Page {
    pub start: u64,
    pub end: u64,
    pub flags: Vec<u8>,
    pub offset: u64,
    pub dev: Vec<u8>,
    pub inode: u64,
    pub name: Option<Vec<u8>>,
}

impl Page {
    pub open spec fn view_tuple(&self) -> (u64, u64, Seq<u8>, u64, Seq<u8>, u64, Option<Seq<u8>>) {
        (
            self.start,
            self.end,
            self.flags@,
            self.offset,
            self.dev@,
            self.inode,
            match self.name {
                Some(n) => Some(n@),
                None => None,
            },
        )
    }

    pub fn start(&self) -> (r: u64)
        ensures
            r == self.start,
    {
        self.start
    }

    pub fn end(&self) -> (r: u64)
        ensures
            r == self.end,
    {
        self.end
    }

    /// Bytes in the region; zero for a malformed one.
    pub fn size(&self) -> (r: u64)
        ensures
            r == if self.end >= self.start { (self.end - self.start) as u64 } else { 0 },
    {
        if self.end >= self.start {
            self.end - self.start
        } else {
            0
        }
    }

    pub fn is_read(&self) -> (r: bool)
        ensures
            r == (self.flags@.len() >= 1 && self.flags@[0] == 114),
    {
        self.flags.len() >= 1 && self.flags[0] == 114
    }

    pub fn is_write(&self) -> (r: bool)
        ensures
            r == (self.flags@.len() >= 2 && self.flags@[1] == 119),
    {
        self.flags.len() >= 2 && self.flags[1] == 119
    }

    pub fn is_exec(&self) -> (r: bool)
        ensures
            r == (self.flags@.len() >= 3 && self.flags@[2] == 120),
    {
        self.flags.len() >= 3 && self.flags[2] == 120
    }

    pub fn name(&self) -> (r: Option<&[u8]>)
        ensures
            r matches Some(n) ==> (self.name matches Some(m) && n@ == m@),
            r is None ==> self.name is None,
    {
        match &self.name {
            Some(n) => Some(n.as_slice()),
            None => None,
        }
    }
}

fn copy_range(t: &[u8], lo: usize, hi: usize) -> (r: Vec<u8>)
    requires
        lo <= hi <= t@.len(),
    ensures
        r@ == t@.subrange(lo as int, hi as int),
{
    let mut out: Vec<u8> = Vec::new();
    let mut i = lo;
    while i < hi
        invariant
            lo <= i <= hi <= t@.len(),
            out@ == t@.subrange(lo as int, i as int),
        decreases hi - i,
    {
        out.push(t[i]);
        assert(out@ =~= t@.subrange(lo as int, i + 1));
        i = i + 1;
    }
    out
}

/// Splits `t[lo..hi]` at its first space: the end of the first part.
fn space_in(t: &[u8], lo: usize, hi: usize) -> (r: Option<usize>)
    requires
        lo <= hi <= t@.len(),
    ensures
        r matches Some(p) ==> lo <= p < hi && split_space(t@.subrange(lo as int, hi as int)) == Some(
            (t@.subrange(lo as int, p as int), t@.subrange(p + 1, hi as int)),
        ),
        r is None ==> split_space(t@.subrange(lo as int, hi as int)) is None,
{
    let ghost s = t@.subrange(lo as int, hi as int);
    proof {
        lemma_find_byte(s, 32);
    }
    match find_in(t, lo, hi, 32) {
        Some(i) => {
            assert(s.subrange(0, i as int) =~= t@.subrange(lo as int, lo + i));
            assert(s.subrange(i + 1, s.len() as int) =~= t@.subrange(lo + i + 1, hi as int));
            Some(lo + i)
        },
        None => None,
    }
}

fn range_in(t: &[u8], lo: usize, hi: usize) -> (r: Option<(u64, u64)>)
    requires
        lo <= hi <= t@.len(),
    ensures
        r == parse_range(t@.subrange(lo as int, hi as int)),
{
    let ghost s = t@.subrange(lo as int, hi as int);
    proof {
        lemma_find_byte(s, 45);
    }
    let d = match find_in(t, lo, hi, 45) {
        Some(d) => lo + d,
        None => {
            return None;
        },
    };
    let ghost rest = s.subrange(d - lo + 1, s.len() as int);
    assert(rest =~= t@.subrange(d + 1, hi as int));
    proof {
        lemma_find_byte(rest, 45);
    }
    let e = match find_in(t, d + 1, hi, 45) {
        Some(q) => {
            assert(rest.subrange(0, q as int) =~= t@.subrange(d + 1, d + 1 + q));
            d + 1 + q
        },
        None => hi,
    };
    assert(s.subrange(0, d - lo) =~= t@.subrange(lo as int, d as int));
    match (radix16_in(t, lo, d), radix16_in(t, d + 1, e)) {
        (Some(a), Some(b)) => Some((a, b)),
        _ => None,
    }
}

/// Parses one line of a process's memory map.
pub fn parse_maps_line_in(t: &[u8], lo: usize, hi: usize) -> (r: Option<Page>)
    requires
        lo <= hi <= t@.len(),
    ensures
        r matches Some(p) ==> parse_maps_line(t@.subrange(lo as int, hi as int)) == Some(p.view_tuple()),
        r is None ==> parse_maps_line(t@.subrange(lo as int, hi as int)) is None,
{
    let sp1 = match space_in(t, lo, hi) {
        Some(p) => p,
        None => {
            return None;
        },
    };
    let sp2 = match space_in(t, sp1 + 1, hi) {
        Some(p) => p,
        None => {
            return None;
        },
    };
    let sp3 = match space_in(t, sp2 + 1, hi) {
        Some(p) => p,
        None => {
            return None;
        },
    };
    let sp4 = match space_in(t, sp3 + 1, hi) {
        Some(p) => p,
        None => {
            return None;
        },
    };
    let sp5 = match space_in(t, sp4 + 1, hi) {
        Some(p) => p,
        None => {
            return None;
        },
    };
    let range = range_in(t, lo, sp1);
    let off = radix16_in(t, sp2 + 1, sp3);
    let inode = dec_in(t, sp4 + 1, sp5);
    match (range, off, inode) {
        (Some((a, b)), Some(o), Some(n)) => {
            let mut s = sp5 + 1;
            while s < hi && (t[s] == 32 || (9 <= t[s] && t[s] <= 13))
                invariant
                    sp5 + 1 <= s <= hi <= t@.len(),
                    trim_start(t@.subrange(s as int, hi as int)) == trim_start(t@.subrange(sp5 + 1, hi as int)),
                decreases hi - s,
            {
                assert(t@.subrange(s as int, hi as int).drop_first() =~= t@.subrange(s + 1, hi as int));
                s = s + 1;
            }
            assert(trim_start(t@.subrange(s as int, hi as int)) == t@.subrange(s as int, hi as int));
            let name = if s == hi {
                None
            } else {
                Some(copy_range(t, s, hi))
            };
            Some(Page {
                start: a,
                end: b,
                flags: copy_range(t, sp1 + 1, sp2),
                offset: o,
                dev: copy_range(t, sp3 + 1, sp4),
                inode: n,
                name,
            })
        },
        _ => None,
    }
}

/// The regions listed in a process's memory map, one per line; lines that do
/// not parse are skipped.
pub open spec fn parse_maps_text(t: Seq<u8>) -> Seq<(u64, u64, Seq<u8>, u64, Seq<u8>, u64, Option<Seq<u8>>)>
    decreases t.len(),
{
    if t.len() == 0 {
        Seq::empty()
    } else {
        let p = match find_byte(t, 10) {
            Some(p) => p,
            None => t.len() as int,
        };
        if 0 <= p <= t.len() {
            let rest = if p < t.len() { t.subrange(p + 1, t.len() as int) } else { Seq::empty() };
            let here = match parse_maps_line(strip_cr(t.subrange(0, p))) {
                Some(m) => seq![m],
                None => Seq::empty(),
            };
            here + parse_maps_text(rest)
        } else {
            Seq::empty()
        }
    }
}

/// Parses a process's memory map.
pub fn parse_maps(t: &[u8]) -> (r: Vec<Page>)
    ensures
        r@.map_values(|p: Page| p.view_tuple()) == parse_maps_text(t@),
{
    let n = t.len();
    let mut out: Vec<Page> = Vec::new();
    let mut p: usize = 0;
    assert(t@.subrange(0, n as int) =~= t@);
    while p < n
        invariant
            n == t@.len(),
            p <= n,
            out@.map_values(|p: Page| p.view_tuple()) + parse_maps_text(t@.subrange(p as int, n as int))
                == parse_maps_text(t@),
        decreases n - p,
    {
        let ghost rest = t@.subrange(p as int, n as int);
        proof {
            lemma_find_byte(rest, 10);
        }
        let e = match find_in(t, p, n, 10) {
            Some(i) => p + i,
            None => n,
        };
        let mut stop = e;
        if stop > p && t[stop - 1] == 13 {
            stop = stop - 1;
        }
        assert(strip_cr(rest.subrange(0, e - p)) =~= t@.subrange(p as int, stop as int));
        let next = if e < n { e + 1 } else { n };
        let ghost tail = if e < n { rest.subrange(e - p + 1, rest.len() as int) } else { Seq::<u8>::empty() };
        assert(tail =~= t@.subrange(next as int, n as int));
        let ghost pre = out@.map_values(|p: Page| p.view_tuple());
        match parse_maps_line_in(t, p, stop) {
            Some(pg) => {
                out.push(pg);
                assert(out@.map_values(|p: Page| p.view_tuple()) =~= pre.push(pg.view_tuple()));
            },
            None => {},
        }
        assert(out@.map_values(|p: Page| p.view_tuple()) + parse_maps_text(t@.subrange(next as int, n as int))
            =~= pre + parse_maps_text(rest));
        p = next;
    }
    assert(t@.subrange(p as int, n as int) =~= Seq::<u8>::empty());
    assert(out@.map_values(|p: Page| p.view_tuple()) + Seq::empty() =~= out@.map_values(|p: Page| p.view_tuple()));
    out
}

} // verus!
