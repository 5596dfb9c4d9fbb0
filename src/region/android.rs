//! Classification on Android.

use vstd::prelude::*;
use super::{elf_magic, elf_magic_exec, equals, has_prefix, has_prefix_exec, path_under, path_under_exec};
use super::linux::{dev_dir, heap_name, memfd_prefix, stack_name};

verus! {

pub open spec fn bss_name() -> Seq<u8> {
    seq![91u8, 97, 110, 111, 110, 58, 46, 98, 115, 115, 93]
}

pub open spec fn malloc_name() -> Seq<u8> {
    seq![91u8, 97, 110, 111, 110, 58, 108, 105, 98, 99, 95, 109, 97, 108, 108, 111, 99, 93]
}

/// The system directories whose files never count.
pub open spec fn system_dirs() -> Seq<Seq<u8>> {
    seq![
        dev_dir(),
        seq![47u8, 115, 121, 115, 116, 101, 109],
        seq![47u8, 115, 121, 115, 116, 101, 109, 95, 101, 120, 116],
        seq![47u8, 97, 112, 101, 120],
        seq![47u8, 112, 114, 111, 100, 117, 99, 116],
        seq![47u8, 118, 101, 110, 100, 111, 114],
    ]
}

/// The file name of path `n` has extension `ext`.
pub open spec fn has_extension(n: Seq<u8>, ext: Seq<u8>) -> bool {
    let dot = seq![46u8] + ext;
    &&& n.len() > dot.len()
    &&& n.subrange(n.len() - dot.len(), n.len() as int) == dot
    &&& n[n.len() - dot.len() - 1] != 47
}

pub open spec fn dex() -> Seq<u8> {
    seq![100u8, 101, 120]
}

pub open spec fn odex() -> Seq<u8> {
    seq![111u8, 100, 101, 120]
}

/// The name alone rules the region out.
pub open spec fn excluded(n: Seq<u8>) -> bool {
    ||| !(n.len() > 0 && n[0] == 47)
    ||| exists|i: int| 0 <= i < system_dirs().len() && path_under(n, #[trigger] system_dirs()[i])
    ||| has_extension(n, dex())
    ||| has_extension(n, odex())
}

/// Whether a region may hold pointers: anonymous regions, `.bss`, the malloc
/// arena, the stack and the heap always; memfd regions, system directories
/// and dex files never; other files when their first 64 bytes could be read
/// (`header`) and start an ELF image.
pub open spec fn keeps(name: Option<Seq<u8>>, header: Option<Seq<u8>>) -> bool {
    match name {
        None => true,
        Some(n) => if n == bss_name() || n == malloc_name() || n == stack_name() || n == heap_name() {
            true
        } else if has_prefix(n, memfd_prefix()) {
            false
        } else if excluded(n) {
            false
        } else {
            match header {
                Some(h) => h.len() >= 64 && has_prefix(h, elf_magic()),
                None => false,
            }
        },
    }
}

fn has_extension_exec(n: &[u8], ext: &[u8]) -> (r: bool)
    requires
        ext@.len() < 8,
    ensures
        r == has_extension(n@, ext@),
{
    let dl = ext.len() + 1;
    let nlen = n.len();
    if nlen <= dl {
        return false;
    }
    let start = n.len() - dl;
    if n[start] != 46 || n[start - 1] == 47 {
        proof {
            let dot = seq![46u8] + ext@;
            if n[start as int] != 46 {
                assert(n@.subrange(start as int, n@.len() as int)[0] != dot[0]);
            }
        }
        return false;
    }
    let mut i: usize = 0;
    while i < ext.len()
        invariant
            dl == ext@.len() + 1,
            start + dl == n@.len() == nlen,
            i <= ext@.len(),
            forall|j: int| 0 <= j < i ==> n@[start + 1 + j] == ext@[j],
        decreases ext@.len() - i,
    {
        if n[start + 1 + i] != ext[i] {
            proof {
                let dot = seq![46u8] + ext@;
                assert(n@.subrange(start as int, n@.len() as int)[i + 1] != dot[i + 1]);
            }
            return false;
        }
        i = i + 1;
    }
    assert(n@.subrange(start as int, n@.len() as int) =~= seq![46u8] + ext@);
    true
}

/// Decides whether a region counts, from its backing name and the first bytes
/// of the backing file (None where it could not be read).
pub fn mapping_filter(name: Option<&[u8]>, header: Option<&[u8]>) -> (r: bool)
    ensures
        r == keeps(
            match name {
                Some(n) => Some(n@),
                None => None,
            },
            match header {
                Some(h) => Some(h@),
                None => None,
            },
        ),
{
    let n = match name {
        None => {
            return true;
        },
        Some(n) => n,
    };
    let bss: Vec<u8> = vec![91u8, 97, 110, 111, 110, 58, 46, 98, 115, 115, 93];
    let malloc: Vec<u8> = vec![91u8, 97, 110, 111, 110, 58, 108, 105, 98, 99, 95, 109, 97, 108, 108, 111, 99, 93];
    let stack: Vec<u8> = vec![91u8, 115, 116, 97, 99, 107, 93];
    let heap: Vec<u8> = vec![91u8, 104, 101, 97, 112, 93];
    assert(bss@ =~= bss_name());
    assert(malloc@ =~= malloc_name());
    assert(stack@ =~= stack_name());
    assert(heap@ =~= heap_name());
    if equals(n, bss.as_slice()) || equals(n, malloc.as_slice()) || equals(n, stack.as_slice()) || equals(
        n,
        heap.as_slice(),
    ) {
        return true;
    }
    let memfd: Vec<u8> = vec![47u8, 109, 101, 109, 102, 100, 58];
    assert(memfd@ =~= memfd_prefix());
    if has_prefix_exec(n, memfd.as_slice()) {
        return false;
    }
    let dirs: Vec<Vec<u8>> = vec![
        vec![47u8, 100, 101, 118],
        vec![47u8, 115, 121, 115, 116, 101, 109],
        vec![47u8, 115, 121, 115, 116, 101, 109, 95, 101, 120, 116],
        vec![47u8, 97, 112, 101, 120],
        vec![47u8, 112, 114, 111, 100, 117, 99, 116],
        vec![47u8, 118, 101, 110, 100, 111, 114],
    ];
    assert(dirs@.len() == 6);
    assert(dirs@[0]@ =~= system_dirs()[0]);
    assert(dirs@[1]@ =~= system_dirs()[1]);
    assert(dirs@[2]@ =~= system_dirs()[2]);
    assert(dirs@[3]@ =~= system_dirs()[3]);
    assert(dirs@[4]@ =~= system_dirs()[4]);
    assert(dirs@[5]@ =~= system_dirs()[5]);
    let mut under = false;
    let mut i: usize = 0;
    while i < dirs.len()
        invariant
            dirs@.len() == 6,
            forall|j: int| 0 <= j < 6 ==> (#[trigger] dirs@[j])@ == system_dirs()[j],
            i <= 6,
            under <==> exists|j: int| 0 <= j < i && path_under(n@, #[trigger] system_dirs()[j]),
        decreases 6 - i,
    {
        if path_under_exec(n, dirs[i].as_slice()) {
            under = true;
        }
        i = i + 1;
    }
    let d: Vec<u8> = vec![100u8, 101, 120];
    let o: Vec<u8> = vec![111u8, 100, 101, 120];
    assert(d@ =~= dex());
    assert(o@ =~= odex());
    if !(n.len() > 0 && n[0] == 47) || under || has_extension_exec(n, d.as_slice()) || has_extension_exec(
        n,
        o.as_slice(),
    ) {
        return false;
    }
    match header {
        Some(h) => {
            let magic = elf_magic_exec();
            h.len() >= 64 && has_prefix_exec(h, magic.as_slice())
        },
        None => false,
    }
}

} // verus!
