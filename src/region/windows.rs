//! Classification on Windows.

use vstd::prelude::*;
use super::{contains_run, contains_within, has_prefix, has_prefix_exec};

verus! {

/// `\Windows\`
pub open spec fn windows_dir() -> Seq<u8> {
    seq![92u8, 87, 105, 110, 100, 111, 119, 115, 92]
}

/// The header of a PE image.
pub open spec fn mz_magic() -> Seq<u8> {
    seq![0x4du8, 0x5a]
}

/// A rooted path: `\...`, or a drive letter with `:\`.
pub open spec fn rooted(n: Seq<u8>) -> bool {
    (n.len() > 0 && n[0] == 92) || (n.len() >= 3 && n[1] == 58 && n[2] == 92)
}

/// Whether a region may hold pointers: guard and free regions never;
/// anonymous regions always; files whose first forty bytes name the Windows
/// directory, and unrooted names, never; other files when their first eight
/// bytes could be read (`header`) and start a PE image.
pub open spec fn keeps(unusable: bool, name: Option<Seq<u8>>, header: Option<Seq<u8>>) -> bool {
    if unusable {
        false
    } else {
        match name {
            None => true,
            Some(n) => {
                let lim = if n.len() < 40 { n.len() as int } else { 40 };
                if contains_run(n.subrange(0, lim), windows_dir()) || !rooted(n) {
                    false
                } else {
                    match header {
                        Some(h) => h.len() >= 8 && has_prefix(h, mz_magic()),
                        None => false,
                    }
                }
            },
        }
    }
}

/// Decides whether a region counts: `unusable` for guard and free regions,
/// its backing name, and the first bytes of the backing file (None where it
/// could not be read).
pub fn mapping_filter(unusable: bool, name: Option<&[u8]>, header: Option<&[u8]>) -> (r: bool)
    ensures
        r == keeps(
            unusable,
            match name {
                Some(n) => Some(n@),
                None => None,
            },
            match header {
                Some(h) => Some(h@),
                None => None,
            },
        ),
{
    if unusable {
        return false;
    }
    let n = match name {
        None => {
            return true;
        },
        Some(n) => n,
    };
    let lim: usize = if n.len() < 40 { n.len() } else { 40 };
    let w: Vec<u8> = vec![92u8, 87, 105, 110, 100, 111, 119, 115, 92];
    assert(w@ =~= windows_dir());
    let is_rooted = (n.len() > 0 && n[0] == 92) || (n.len() >= 3 && n[1] == 58 && n[2] == 92);
    if contains_within(n, lim, w.as_slice()) || !is_rooted {
        return false;
    }
    match header {
        Some(h) => {
            let mz: Vec<u8> = vec![0x4du8, 0x5a];
            assert(mz@ =~= mz_magic());
            h.len() >= 8 && has_prefix_exec(h, mz.as_slice())
        },
        None => false,
    }
}

} // verus!
