//! Classification on macOS.

use vstd::prelude::*;
use super::{has_prefix, has_prefix_exec};

verus! {

pub open spec fn system_library() -> Seq<u8> {
    seq![47u8, 83, 121, 115, 116, 101, 109, 47, 76, 105, 98, 114, 97, 114, 121, 47]
}

pub open spec fn usr_lib() -> Seq<u8> {
    seq![47u8, 117, 115, 114, 47, 108, 105, 98]
}

pub open spec fn ios_support() -> Seq<u8> {
    seq![47u8, 83, 121, 115, 116, 101, 109, 47, 105, 79, 83, 83, 117, 112, 112, 111, 114, 116]
}

pub open spec fn private_dir() -> Seq<u8> {
    seq![47u8, 112, 114, 105, 118, 97, 116, 101]
}

/// Whether a region may hold pointers: anonymous regions always; system
/// libraries, private files and unrooted names never; other files always.
pub open spec fn keeps(name: Option<Seq<u8>>) -> bool {
    match name {
        None => true,
        Some(n) => !(has_prefix(n, system_library()) || has_prefix(n, usr_lib()) || has_prefix(n, ios_support())
            || has_prefix(n, private_dir()) || !(n.len() > 0 && n[0] == 47)),
    }
}

/// Decides whether a region counts, from its backing name.
pub fn mapping_filter(name: Option<&[u8]>) -> (r: bool)
    ensures
        r == keeps(
            match name {
                Some(n) => Some(n@),
                None => None,
            },
        ),
{
    let n = match name {
        None => {
            return true;
        },
        Some(n) => n,
    };
    let a: Vec<u8> = vec![47u8, 83, 121, 115, 116, 101, 109, 47, 76, 105, 98, 114, 97, 114, 121, 47];
    let b: Vec<u8> = vec![47u8, 117, 115, 114, 47, 108, 105, 98];
    let c: Vec<u8> = vec![47u8, 83, 121, 115, 116, 101, 109, 47, 105, 79, 83, 83, 117, 112, 112, 111, 114, 116];
    let d: Vec<u8> = vec![47u8, 112, 114, 105, 118, 97, 116, 101];
    assert(a@ =~= system_library());
    assert(b@ =~= usr_lib());
    assert(c@ =~= ios_support());
    assert(d@ =~= private_dir());
    !(has_prefix_exec(n, a.as_slice()) || has_prefix_exec(n, b.as_slice()) || has_prefix_exec(n, c.as_slice())
        || has_prefix_exec(n, d.as_slice()) || !(n.len() > 0 && n[0] == 47))
}

} // verus!
