//! Region classification: which mapped regions may hold or be the target of
//! pointers, by backing name and, where needed, the backing file's first bytes.


pub mod android;
pub mod linux;
pub mod macos;
pub mod windows;



use vstd::prelude::*;
use crate::index::{Module, ModuleView};
use crate::num::{dec_nat, decimal_u64};

verus! {

/// `s` begins with `p`.
pub open spec fn has_prefix(s: Seq<u8>, p: Seq<u8>) -> bool {
    p.len() <= s.len() && s.subrange(0, p.len() as int) == p
}

/// The path `s` is `dir` or lies below it, component by component.
pub open spec fn path_under(s: Seq<u8>, dir: Seq<u8>) -> bool {
    has_prefix(s, dir) && (s.len() == dir.len() || s[dir.len() as int] == 47)
}

/// `s` holds `p` somewhere.
pub open spec fn contains_run(s: Seq<u8>, p: Seq<u8>) -> bool {
    exists|i: int| 0 <= i <= s.len() - p.len() && #[trigger] s.subrange(i, i + p.len()) == p
}

pub fn has_prefix_exec(s: &[u8], p: &[u8]) -> (r: bool)
    ensures
        r == has_prefix(s@, p@),
{
    if p.len() > s.len() {
        return false;
    }
    let mut i: usize = 0;
    while i < p.len()
        invariant
            p@.len() <= s@.len(),
            i <= p@.len(),
            forall|j: int| 0 <= j < i ==> s@[j] == p@[j],
        decreases p@.len() - i,
    {
        if s[i] != p[i] {
            assert(s@.subrange(0, p@.len() as int)[i as int] != p@[i as int]);
            return false;
        }
        i = i + 1;
    }
    assert(s@.subrange(0, p@.len() as int) =~= p@);
    true
}

pub fn path_under_exec(s: &[u8], dir: &[u8]) -> (r: bool)
    ensures
        r == path_under(s@, dir@),
{
    has_prefix_exec(s, dir) && (s.len() == dir.len() || s[dir.len()] == 47)
}

pub fn equals(s: &[u8], p: &[u8]) -> (r: bool)
    ensures
        r == (s@ == p@),
{
    let r = s.len() == p.len() && has_prefix_exec(s, p);
    proof {
        if s@.len() == p@.len() {
            assert(s@.subrange(0, p@.len() as int) =~= s@);
        }
    }
    r
}

/// Whether `s[..lim]` holds `p`.
pub fn contains_within(s: &[u8], lim: usize, p: &[u8]) -> (r: bool)
    requires
        lim <= s@.len(),
    ensures
        r == contains_run(s@.subrange(0, lim as int), p@),
{
    let ghost t = s@.subrange(0, lim as int);
    if p.len() > lim {
        return false;
    }
    let mut i: usize = 0;
    while i <= lim - p.len()
        invariant
            p@.len() <= lim <= s@.len(),
            t == s@.subrange(0, lim as int),
            i <= lim - p@.len() + 1,
            forall|j: int| 0 <= j < i ==> #[trigger] t.subrange(j, j + p@.len()) != p@,
        decreases lim - i,
    {
        let mut k: usize = 0;
        let mut same = true;
        while k < p.len()
            invariant
                i + p@.len() <= lim <= s@.len(),
                k <= p@.len(),
                same <==> forall|q: int| 0 <= q < k ==> s@[i + q] == p@[q],
            decreases p@.len() - k,
        {
            if s[i + k] != p[k] {
                same = false;
            }
            k = k + 1;
        }
        if same {
            assert(t.subrange(i as int, i + p@.len()) =~= p@);
            return true;
        }
        assert(t.subrange(i as int, i + p@.len()) != p@) by {
            let q = choose|q: int| 0 <= q < p@.len() && s@[i + q] != p@[q];
            assert(t.subrange(i as int, i + p@.len())[q] == s@[i + q]);
        }
        i = i + 1;
    }
    false
}

/// The header of an ELF file.
pub open spec fn elf_magic() -> Seq<u8> {
    seq![0x7fu8, 69, 76, 70]
}

pub fn elf_magic_exec() -> (r: Vec<u8>)
    ensures
        r@ == elf_magic(),
{
    let r: Vec<u8> = vec![0x7fu8, 69, 76, 70];
    assert(r@ =~= elf_magic());
    r
}

/// A mapped region chosen for scanning: `[start, end)` and its backing name.
pub struct Page {
    pub start: u64,
    pub end: u64,
    pub name: Option<Vec<u8>>,
}

impl Page {
    pub open spec fn named(&self) -> Option<(u64, u64, Seq<u8>)> {
        match self.name {
            Some(n) => Some((self.start, self.end, n@)),
            None => None,
        }
    }
}

/// The named pages, with consecutive pages of one name merged into one range.
pub open spec fn coalesce(ps: Seq<Option<(u64, u64, Seq<u8>)>>) -> Seq<ModuleView>
    decreases ps.len(),
{
    if ps.len() == 0 {
        Seq::empty()
    } else {
        let acc = coalesce(ps.drop_last());
        match ps.last() {
            None => acc,
            Some(cur) => if acc.len() > 0 && acc.last().2 == cur.2 {
                acc.update(acc.len() - 1, (acc.last().0, cur.1, acc.last().2))
            } else {
                acc.push(cur)
            },
        }
    }
}

/// The part of a path after its last `/`, or the whole path when that part is empty.
pub open spec fn file_name(p: Seq<u8>) -> Seq<u8>
    decreases p.len(),
{
    file_name_from(p, p.len() as int)
}

pub open spec fn file_name_from(p: Seq<u8>, i: int) -> Seq<u8>
    decreases i,
{
    if i <= 0 || i > p.len() {
        p
    } else if p[i - 1] == 47 {
        if i == p.len() {
            p
        } else {
            p.subrange(i, p.len() as int)
        }
    } else {
        file_name_from(p, i - 1)
    }
}

/// The base modules of a page list: named pages merged, each name cut to its
/// file name and suffixed `[k]`, `k` counting earlier modules of that name from 0.
pub open spec fn module_list(ps: Seq<Option<(u64, u64, Seq<u8>)>>) -> Seq<ModuleView> {
    let c = coalesce(ps);
    let names = c.map_values(|m: ModuleView| file_name(m.2));
    Seq::new(
        c.len(),
        |i: int| (c[i].0, c[i].1, names[i] + seq![91u8] + dec_nat(earlier_before(names, i, i)) + seq![93u8]),
    )
}

pub(crate) fn file_name_exec(p: &Vec<u8>) -> (r: Vec<u8>)
    ensures
        r@ == file_name(p@),
{
    let n = p.len();
    let mut i: usize = n;
    while i > 0 && p[i - 1] != 47
        invariant
            i <= n == p@.len(),
            file_name(p@) == file_name_from(p@, i as int),
        decreases i,
    {
        i = i - 1;
    }
    if i == 0 || i == n {
        let r = p.clone();
        assert(r@ =~= p@);
        return r;
    }
    let mut out: Vec<u8> = Vec::new();
    let mut j = i;
    while j < n
        invariant
            i <= j <= n == p@.len(),
            out@ == p@.subrange(i as int, j as int),
        decreases n - j,
    {
        out.push(p[j]);
        assert(out@ =~= p@.subrange(i as int, j + 1));
        j = j + 1;
    }
    out
}

fn bytes_eq(a: &Vec<u8>, b: &Vec<u8>) -> (r: bool)
    ensures
        r == (a@ == b@),
{
    equals(a.as_slice(), b.as_slice())
}

/// The named pages, consecutive pages of one name merged.
pub fn coalesced(pages: &[Page]) -> (merged: Vec<Module>)
    ensures
        merged@.map_values(|m: Module| m@) == coalesce(pages@.map_values(|p: Page| p.named())),
{
    let ghost ps = pages@.map_values(|p: Page| p.named());
    let mut merged: Vec<Module> = Vec::new();
    let mut i: usize = 0;
    while i < pages.len()
        invariant
            i <= pages@.len(),
            ps == pages@.map_values(|p: Page| p.named()),
            merged@.map_values(|m: Module| m@) == coalesce(ps.subrange(0, i as int)),
        decreases pages@.len() - i,
    {
        let ghost sub = ps.subrange(0, i + 1);
        assert(sub.drop_last() =~= ps.subrange(0, i as int));
        let ghost before = merged@.map_values(|m: Module| m@);
        let pg = &pages[i];
        match &pg.name {
            None => {},
            Some(name) => {
                let k = merged.len();
                if k > 0 && bytes_eq(&merged[k - 1].name, name) {
                    let last = merged.pop().unwrap();
                    merged.push(Module { start: last.start, end: pg.end, name: last.name });
                    assert(merged@.map_values(|m: Module| m@) =~= before.update(
                        before.len() - 1,
                        (before.last().0, pg.end, before.last().2),
                    ));
                } else {
                    let n2 = name.clone();
                    assert(n2@ =~= name@);
                    merged.push(Module { start: pg.start, end: pg.end, name: n2 });
                    assert(merged@.map_values(|m: Module| m@) =~= before.push((pg.start, pg.end, name@)));
                }
            },
        }
        i = i + 1;
    }
    assert(ps.subrange(0, i as int) =~= ps);
    merged
}

/// The base modules of the pages chosen for scanning.
pub fn modules_of(pages: &[Page]) -> (r: Vec<Module>)
    ensures
        r@.map_values(|m: Module| m@) == module_list(pages@.map_values(|p: Page| p.named())),
{
    let ghost ps = pages@.map_values(|p: Page| p.named());
    let merged = coalesced(pages);
    let ghost c = coalesce(ps);
    let mut names: Vec<Vec<u8>> = Vec::new();
    let mut j: usize = 0;
    while j < merged.len()
        invariant
            j <= merged@.len(),
            c == merged@.map_values(|m: Module| m@),
            names@.len() == j,
            forall|t: int| 0 <= t < j ==> (#[trigger] names@[t])@ == file_name(c[t].2),
        decreases merged@.len() - j,
    {
        names.push(file_name_exec(&merged[j].name));
        j = j + 1;
    }
    let ghost fnames = c.map_values(|m: ModuleView| file_name(m.2));
    let mut out: Vec<Module> = Vec::new();
    let mut t: usize = 0;
    while t < merged.len()
        invariant
            t <= merged@.len() == names@.len(),
            c == merged@.map_values(|m: Module| m@),
            c == coalesce(ps),
            fnames == c.map_values(|m: ModuleView| file_name(m.2)),
            forall|u: int| 0 <= u < names@.len() ==> (#[trigger] names@[u])@ == fnames[u],
            out@.map_values(|m: Module| m@) == module_list(ps).subrange(0, t as int),
        decreases merged@.len() - t,
    {
        let mut count: u64 = 0;
        let mut u: usize = 0;
        while u < t
            invariant
                u <= t < names@.len(),
                forall|w: int| 0 <= w < names@.len() ==> (#[trigger] names@[w])@ == fnames[w],
                count == earlier_before(fnames, t as int, u as int),
                count <= u,
            decreases t - u,
        {
            if bytes_eq(&names[u], &names[t]) {
                count = count + 1;
            }
            u = u + 1;
        }
        let mut name = names[t].clone();
        assert(name@ =~= fnames[t as int]);
        name.push(91u8);
        let mut d = decimal_u64(count);
        name.append(&mut d);
        name.push(93u8);
        let ghost before = out@.map_values(|m: Module| m@);
        out.push(Module { start: merged[t].start, end: merged[t].end, name });
        assert(module_list(ps)[t as int] == (merged@[t as int].start, merged@[t as int].end, out@.last().name@));
        assert(out@.map_values(|m: Module| m@) =~= module_list(ps).subrange(0, t + 1)) by {
            assert(out@.map_values(|m: Module| m@) =~= before.push(module_list(ps)[t as int]));
        }
        t = t + 1;
    }
    assert(module_list(ps).subrange(0, t as int) =~= module_list(ps));
    out
}

/// How many of `names[..u]` equal `names[t]`.
pub open spec fn earlier_before(names: Seq<Seq<u8>>, t: int, u: int) -> nat
    decreases u,
{
    if u <= 0 {
        0
    } else {
        earlier_before(names, t, u - 1) + if names[u - 1] == names[t] { 1nat } else { 0nat }
    }
}

} // verus!
