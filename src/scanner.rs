//! The pointer scanner: a loaded pointer map with its indexes, and the
//! searches over it.

use std::collections::BTreeMap;
use vstd::prelude::*;
use crate::builder::{check_regions, create_pointer_map, fits, pair_ok, plan_of, plan_pairs, regions_wf, VirtualMemoryRead};
use crate::codec::{
    decode_module_file, decode_pair_file, decode_pairs, encode_module_file, encode_pairs, module_file, pairs_bytes,
    parse_modules,
};
use crate::error::Error;
use crate::index::{
    entry_keys, lists, map_of, module_at, reverse_of, sorted, sorted_entries, sorted_entries_of, sorted_keys,
    ModuleIndex, ModuleView, ReverseIndex,
};
use crate::region::{module_list, modules_of, Page};
use crate::scan::{pointer_chain_scan, scan_output, Bounds, Emit, Head};
use crate::stack::MAX_DEPTH;

verus! {

broadcast use {vstd::std_specs::btree::group_btree_axioms, vstd::laws_cmp::group_laws_cmp};

/// A map after inserting pairs in order; a later pair for a location wins.
pub open spec fn insert_all(m: Map<u64, u64>, s: Seq<(u64, u64)>) -> Map<u64, u64>
    decreases s.len(),
{
    if s.len() == 0 {
        m
    } else {
        insert_all(m.insert(s[0].0, s[0].1), s.drop_first())
    }
}

/// The keys of `ks` that some module holds, in order.
pub open spec fn in_modules(ks: Seq<u64>, ms: Seq<ModuleView>) -> Seq<u64>
    decreases ks.len(),
{
    if ks.len() == 0 {
        Seq::empty()
    } else if module_at(ms, ks.last()) is Some {
        in_modules(ks.drop_last(), ms).push(ks.last())
    } else {
        in_modules(ks.drop_last(), ms)
    }
}

/// The roots of a search: the locations of the forward map that lie in a
/// module, ascending.
pub open spec fn module_roots(fwd: Map<u64, u64>, ms: Seq<ModuleView>) -> Seq<u64> {
    in_modules(sorted_keys(fwd), ms)
}

/// The keys of `ks` in `[lo, hi]`, in order.
pub open spec fn between(ks: Seq<u64>, lo: u64, hi: u64) -> Seq<u64>
    decreases ks.len(),
{
    if ks.len() == 0 {
        Seq::empty()
    } else if lo <= ks.last() <= hi {
        between(ks.drop_last(), lo, hi).push(ks.last())
    } else {
        between(ks.drop_last(), lo, hi)
    }
}

/// The locations of the forward map in `[lo, hi]`, ascending.
pub open spec fn keys_between(fwd: Map<u64, u64>, lo: u64, hi: u64) -> Seq<u64> {
    between(sorted_keys(fwd), lo, hi)
}

/// Search parameters.
pub struct UserParam {
    /// Longest chain, in links.
    pub depth: usize,
    /// The address the chains lead to.
    pub addr: u64,
    /// How far above and how far below an address a matching pointer may lie.
    pub range: (u64, u64),
    /// Write chain heads as a module name and offset rather than an address.
    pub use_module: bool,
    /// Only chains of at least this many links.
    pub node: Option<usize>,
    /// At most this many chains.
    pub max: Option<usize>,
    /// Only chains whose innermost offset is this one.
    pub last: Option<i64>,
}

/// Search parameters for a search written with absolute heads.
#[derive(Clone, Copy)]
pub struct Params {
    pub depth: usize,
    pub target: u64,
    pub node: usize,
    /// How far above and how far below an address a matching pointer may lie.
    pub offset: (u64, u64),
}

pub open spec fn user_bounds(p: UserParam) -> Bounds {
    Bounds {
        depth: p.depth,
        node: match p.node {
            Some(n) => n,
            None => 0,
        },
        above: p.range.0,
        below: p.range.1,
    }
}

pub open spec fn user_emit(p: UserParam) -> Emit {
    Emit { head: if p.use_module { Head::Modules } else { Head::Absolute(0) }, last: p.last, max: p.max }
}

pub open spec fn params_bounds(p: Params) -> Bounds {
    Bounds { depth: p.depth, node: p.node, above: p.offset.0, below: p.offset.1 }
}

/// A loaded pointer map: the forward map (location to value), its reverse and
/// the module list.
pub struct PtrsxScanner {
    index: ModuleIndex,
    forward: BTreeMap<u64, u64>,
    reverse: ReverseIndex,
}

impl PtrsxScanner {
    pub closed spec fn forward_map(&self) -> Map<u64, u64> {
        self.forward@
    }

    pub closed spec fn modules(&self) -> Seq<ModuleView> {
        self.index@
    }

    pub closed spec fn reverse_entries(&self) -> Seq<(u64, Seq<u64>)> {
        self.reverse@
    }

    /// The reverse index is that of the forward map.
    pub closed spec fn wf(&self) -> bool {
        &&& self.reverse.wf()
        &&& lists(sorted_keys(self.forward@), self.forward@.dom())
        &&& map_of(self.reverse@) == reverse_of(sorted_entries_of(self.forward@))
    }

    pub proof fn lemma_reverse_wf(&self)
        requires
            self.wf(),
        ensures
            forall|i: int, j: int| 0 <= i < j < self.reverse_entries().len()
                ==> self.reverse_entries()[i].0 < self.reverse_entries()[j].0,
            map_of(self.reverse_entries()) == reverse_of(sorted_entries_of(self.forward_map())),
            lists(sorted_keys(self.forward_map()), self.forward_map().dom()),
    {
        self.reverse.lemma_ascending();
    }

    /// The pair file of the forward map, in ascending order of location.
    pub fn save_pointer_map(&self) -> (r: Vec<u8>)
        ensures
            r@ == pairs_bytes(sorted_entries_of(self.forward_map())),
    {
        let e = sorted_entries(&self.forward);
        encode_pairs(&e)
    }

    /// An empty scanner.
    pub fn new() -> (r: Self)
        ensures
            r.wf(),
            r.forward_map() == Map::<u64, u64>::empty(),
            r.modules() == Seq::<ModuleView>::empty(),
    {
        let mut r = PtrsxScanner { index: ModuleIndex::new(), forward: BTreeMap::new(), reverse: ReverseIndex::new() };
        r.rebuild();
        r
    }

    /// Drops everything loaded.
    pub fn reset(&mut self)
        ensures
            final(self).wf(),
            final(self).forward_map() == Map::<u64, u64>::empty(),
            final(self).modules() == Seq::<ModuleView>::empty(),
    {
        self.index.clear();
        self.forward.clear();
        self.rebuild();
    }

    /// Rebuilds the reverse index from the forward map.
    fn rebuild(&mut self)
        ensures
            final(self).wf(),
            final(self).forward_map() == old(self).forward_map(),
            final(self).modules() == old(self).modules(),
    {
        let e = sorted_entries(&self.forward);
        self.reverse = ReverseIndex::from_entries(&e);
        proof {
            assert(entry_keys(e@) =~= sorted_keys(self.forward@));
        }
    }

    /// Inserts pairs in order; a later pair for a location wins.
    pub fn insert_pairs(&mut self, pairs: &Vec<(u64, u64)>)
        ensures
            final(self).wf(),
            final(self).forward_map() == insert_all(old(self).forward_map(), pairs@),
            final(self).modules() == old(self).modules(),
    {
        let mut i: usize = 0;
        assert(pairs@.subrange(0, pairs@.len() as int) =~= pairs@);
        while i < pairs.len()
            invariant
                i <= pairs@.len(),
                self.index@ == old(self).index@,
                insert_all(self.forward@, pairs@.subrange(i as int, pairs@.len() as int))
                    == insert_all(old(self).forward@, pairs@),
            decreases pairs@.len() - i,
        {
            let (k, v) = pairs[i];
            assert(pairs@.subrange(i as int, pairs@.len() as int).drop_first() =~= pairs@.subrange(i + 1, pairs@.len() as int));
            self.forward.insert(k, v);
            i = i + 1;
        }
        assert(pairs@.subrange(i as int, pairs@.len() as int) =~= Seq::<(u64, u64)>::empty());
        self.rebuild();
    }

    /// Loads a pair file. Its length must be a whole number of records.
    pub fn load_pointer_map(&mut self, bytes: &[u8]) -> (r: Result<(), Error>)
        ensures
            bytes@.len() % 16 != 0 ==> r == Err::<(), Error>(Error::Format) && *final(self) == *old(self),
            bytes@.len() % 16 == 0 ==> r is Ok && final(self).wf()
                && final(self).forward_map() == insert_all(old(self).forward_map(), decode_pairs(bytes@))
                && final(self).modules() == old(self).modules(),
    {
        match decode_pair_file(bytes) {
            Some(pairs) => {
                self.insert_pairs(&pairs);
                Ok(())
            },
            None => Err(Error::Format),
        }
    }

    /// Adds the modules listed in a module file; lines that do not parse are skipped.
    pub fn load_modules_info(&mut self, text: &[u8])
        requires
            old(self).wf(),
        ensures
            final(self).wf(),
            final(self).forward_map() == old(self).forward_map(),
            final(self).modules() == old(self).modules() + parse_modules(text@),
    {
        let ms = decode_module_file(text);
        self.index.extend(ms);
    }
}

impl PtrsxScanner {
    /// The ascending locations of the forward map.
    fn sorted_locations(&self) -> (r: Vec<u64>)
        ensures
            r@ == sorted_keys(self.forward_map()),
            crate::index::ascending(r@),
    {
        let e = sorted_entries(&self.forward);
        let mut out: Vec<u64> = Vec::new();
        let mut i: usize = 0;
        while i < e.len()
            invariant
                i <= e@.len(),
                out@ == entry_keys(e@).subrange(0, i as int),
            decreases e@.len() - i,
        {
            out.push(e[i].0);
            assert(out@ =~= entry_keys(e@).subrange(0, i + 1));
            i = i + 1;
        }
        proof {
            assert(out@ =~= entry_keys(e@));
            crate::index::lemma_lists_unique(out@, sorted_keys(self.forward@), self.forward@.dom());
        }
        out
    }

    /// The roots of a search: the locations that lie in a module, ascending.
    pub fn points(&self) -> (r: Vec<u64>)
        ensures
            r@ == module_roots(self.forward_map(), self.modules()),
            sorted(r@),
    {
        let ks = self.sorted_locations();
        let mut out: Vec<u64> = Vec::new();
        let mut i: usize = 0;
        while i < ks.len()
            invariant
                i <= ks@.len(),
                crate::index::ascending(ks@),
                out@ == in_modules(ks@.subrange(0, i as int), self.index@),
                sorted(out@),
                forall|j: int, t: int| 0 <= j < out@.len() && i <= t < ks@.len() ==> out@[j] < ks@[t],
            decreases ks@.len() - i,
        {
            let k = ks[i];
            let ghost sub = ks@.subrange(0, i + 1);
            assert(sub.drop_last() =~= ks@.subrange(0, i as int));
            let take = self.index.lookup(k).is_some();
            if take {
                out.push(k);
            }
            assert forall|j: int, t: int| 0 <= j < out@.len() && i + 1 <= t < ks@.len() implies out@[j] < ks@[t] by {
                if j < out@.len() - 1 || !take {
                } else {
                    assert(ks@[i as int] < ks@[t]);
                }
            }
            i = i + 1;
        }
        assert(ks@.subrange(0, i as int) =~= ks@);
        out
    }

    /// The locations of the forward map in `[lo, hi]`, ascending.
    pub fn points_between(&self, lo: u64, hi: u64) -> (r: Vec<u64>)
        ensures
            r@ == keys_between(self.forward_map(), lo, hi),
            sorted(r@),
    {
        let ks = self.sorted_locations();
        let mut out: Vec<u64> = Vec::new();
        let mut i: usize = 0;
        while i < ks.len()
            invariant
                i <= ks@.len(),
                crate::index::ascending(ks@),
                out@ == between(ks@.subrange(0, i as int), lo, hi),
                sorted(out@),
                forall|j: int, t: int| 0 <= j < out@.len() && i <= t < ks@.len() ==> out@[j] < ks@[t],
            decreases ks@.len() - i,
        {
            let k = ks[i];
            let ghost sub = ks@.subrange(0, i + 1);
            assert(sub.drop_last() =~= ks@.subrange(0, i as int));
            let take = lo <= k && k <= hi;
            if take {
                out.push(k);
            }
            assert forall|j: int, t: int| 0 <= j < out@.len() && i + 1 <= t < ks@.len() implies out@[j] < ks@[t] by {
                if j < out@.len() - 1 || !take {
                } else {
                    assert(ks@[i as int] < ks@[t]);
                }
            }
            i = i + 1;
        }
        assert(ks@.subrange(0, i as int) =~= ks@);
        out
    }

    /// Searches for chains to `param.addr` from the locations that lie in a
    /// module. A depth over the limit is refused.
    pub fn pointer_chain_scanner(&self, param: UserParam) -> (r: Result<Vec<u8>, Error>)
        requires
            self.wf(),
        ensures
            param.depth > MAX_DEPTH ==> r == Err::<Vec<u8>, Error>(Error::Params),
            param.depth <= MAX_DEPTH ==> (r matches Ok(out) && out@ == scan_output(
                self.reverse_entries(),
                module_roots(self.forward_map(), self.modules()),
                user_bounds(param),
                user_emit(param),
                self.modules(),
                param.addr,
            )),
    {
        if param.depth > MAX_DEPTH {
            return Err(Error::Params);
        }
        let points = self.points();
        let b = Bounds {
            depth: param.depth,
            node: match param.node {
                Some(n) => n,
                None => 0,
            },
            above: param.range.0,
            below: param.range.1,
        };
        let emit = Emit {
            head: if param.use_module { Head::Modules } else { Head::Absolute(0) },
            last: param.last,
            max: param.max,
        };
        Ok(pointer_chain_scan(&self.reverse, points.as_slice(), b, emit, &self.index, param.addr))
    }

    /// Searches from the locations in `[range.0, range.1]`, writing each head
    /// as its distance from `range.0`.
    pub fn scanner_with_range(&self, range: (u64, u64), params: Params) -> (r: Result<Vec<u8>, Error>)
        requires
            self.wf(),
        ensures
            params.depth > MAX_DEPTH ==> r == Err::<Vec<u8>, Error>(Error::Params),
            params.depth <= MAX_DEPTH ==> (r matches Ok(out) && out@ == scan_output(
                self.reverse_entries(),
                keys_between(self.forward_map(), range.0, range.1),
                params_bounds(params),
                Emit { head: Head::Absolute(range.0), last: None, max: None },
                self.modules(),
                params.target,
            )),
    {
        if params.depth > MAX_DEPTH {
            return Err(Error::Params);
        }
        let points = self.points_between(range.0, range.1);
        let b = Bounds { depth: params.depth, node: params.node, above: params.offset.0, below: params.offset.1 };
        let emit = Emit { head: Head::Absolute(range.0), last: None, max: None };
        Ok(pointer_chain_scan(&self.reverse, points.as_slice(), b, emit, &self.index, params.target))
    }

    /// Searches from the given roots, writing each head as an address. The
    /// roots must be in ascending order.
    pub fn scanner_with_address(&self, points: &[u64], params: Params) -> (r: Result<Vec<u8>, Error>)
        requires
            self.wf(),
        ensures
            params.depth > MAX_DEPTH || !sorted(points@) ==> r == Err::<Vec<u8>, Error>(Error::Params),
            params.depth <= MAX_DEPTH && sorted(points@) ==> (r matches Ok(out) && out@ == scan_output(
                self.reverse_entries(),
                points@,
                params_bounds(params),
                Emit { head: Head::Absolute(0), last: None, max: None },
                self.modules(),
                params.target,
            )),
    {
        if params.depth > MAX_DEPTH || !is_sorted(points) {
            return Err(Error::Params);
        }
        let b = Bounds { depth: params.depth, node: params.node, above: params.offset.0, below: params.offset.1 };
        let emit = Emit { head: Head::Absolute(0), last: None, max: None };
        Ok(pointer_chain_scan(&self.reverse, points, b, emit, &self.index, params.target))
    }
}

/// The regions `(start, size)` of pages, in order.
pub open spec fn page_regions(pages: Seq<Page>) -> Seq<(u64, u64)> {
    pages.map_values(|p: Page| (p.start, (p.end - p.start) as u64))
}

/// Pages that are in ascending order, disjoint and each well formed.
pub open spec fn pages_wf(pages: Seq<Page>) -> bool {
    &&& forall|i: int| 0 <= i < pages.len() ==> (#[trigger] pages[i]).start <= pages[i].end
    &&& regions_wf(page_regions(pages))
}

pub open spec fn page_names(pages: Seq<Page>) -> Seq<Option<(u64, u64, Seq<u8>)>> {
    pages.map_values(|p: Page| p.named())
}

/// The regions of pages, or none when they are out of order, overlap or are
/// malformed.
pub fn regions_of(pages: &[Page]) -> (r: Option<Vec<(u64, u64)>>)
    ensures
        r is None <==> !pages_wf(pages@),
        r matches Some(v) ==> v@ == page_regions(pages@),
{
    let mut out: Vec<(u64, u64)> = Vec::new();
    let mut i: usize = 0;
    while i < pages.len()
        invariant
            i <= pages@.len(),
            forall|j: int| 0 <= j < i ==> (#[trigger] pages@[j]).start <= pages@[j].end,
            out@ == page_regions(pages@).subrange(0, i as int),
        decreases pages@.len() - i,
    {
        if pages[i].end < pages[i].start {
            return None;
        }
        out.push((pages[i].start, pages[i].end - pages[i].start));
        assert(out@ =~= page_regions(pages@).subrange(0, i + 1));
        i = i + 1;
    }
    assert(out@ =~= page_regions(pages@));
    if check_regions(out.as_slice()) {
        Some(out)
    } else {
        None
    }
}

/// Each entry of `insert_all(m, s)` is one of `m` or a pair of `s`.
pub proof fn lemma_insert_all_from(m: Map<u64, u64>, s: Seq<(u64, u64)>, k: u64)
    requires
        insert_all(m, s).contains_key(k),
    ensures
        (m.contains_key(k) && insert_all(m, s)[k] == m[k]) || exists|i: int| 0 <= i < s.len() && s[i] == (k, insert_all(m, s)[k]),
    decreases s.len(),
{
    if s.len() > 0 {
        let m2 = m.insert(s[0].0, s[0].1);
        lemma_insert_all_from(m2, s.drop_first(), k);
        if exists|i: int| 0 <= i < s.drop_first().len() && s.drop_first()[i] == (k, insert_all(m2, s.drop_first())[k]) {
            let i = choose|i: int| 0 <= i < s.drop_first().len() && s.drop_first()[i] == (k, insert_all(m2, s.drop_first())[k]);
            assert(s[i + 1] == (k, insert_all(m, s)[k]));
        } else if k == s[0].0 {
            assert(s[0] == (k, insert_all(m, s)[k]));
        }
    }
}

impl PtrsxScanner {
    /// Builds the pointer map of a process over the pages chosen for
    /// scanning, and adds their modules. Pages out of order, overlapping or
    /// malformed are refused; a failed read stops the build.
    pub fn create_pointer_map<P: VirtualMemoryRead>(&mut self, proc: &P, pages: &[Page], is_align: bool) -> (r: Result<(), Error>)
        requires
            old(self).wf(),
        ensures
            !pages_wf(pages@) <==> r == Err::<(), Error>(Error::Params),
            r matches Err(e) ==> (e == Error::Params || e == Error::Provider) && *final(self) == *old(self),
            pages_wf(pages@) && (forall|i: int| 0 <= i < pages@.len() ==> (#[trigger] pages@[i]).start == pages@[i].end)
                ==> r is Ok,
            r is Ok ==> {
                &&& final(self).wf()
                &&& final(self).modules() == old(self).modules() + module_list(page_names(pages@))
                &&& exists|bufs: Seq<Seq<u8>>| #![trigger fits(plan_of(page_regions(pages@)), bufs)]
                    fits(plan_of(page_regions(pages@)), bufs) && final(self).forward_map() == insert_all(
                        old(self).forward_map(),
                        plan_pairs(page_regions(pages@), plan_of(page_regions(pages@)), bufs, is_align),
                    )
                &&& forall|k: u64| #[trigger] final(self).forward_map().contains_key(k) ==> (old(self).forward_map().contains_key(k)
                    && final(self).forward_map()[k] == old(self).forward_map()[k]) || pair_ok(
                    page_regions(pages@),
                    is_align,
                    (k, final(self).forward_map()[k]),
                )
            },
    {
        let regions = match regions_of(pages) {
            Some(r) => r,
            None => {
                return Err(Error::Params);
            },
        };
        proof {
            if forall|i: int| 0 <= i < pages@.len() ==> (#[trigger] pages@[i]).start == pages@[i].end {
                assert forall|i: int| 0 <= i < regions@.len() implies (#[trigger] regions@[i]).1 == 0 by {
                    assert(pages@[i].start == pages@[i].end);
                }
            }
        }
        let pairs = match create_pointer_map(proc, regions.as_slice(), is_align) {
            Ok(p) => p,
            Err(e) => {
                return Err(e);
            },
        };
        let ghost before = self.forward@;
        self.insert_pairs(&pairs);
        proof {
            assert forall|k: u64| #[trigger] self.forward@.contains_key(k) implies (before.contains_key(k)
                && self.forward@[k] == before[k]) || pair_ok(page_regions(pages@), is_align, (k, self.forward@[k])) by {
                lemma_insert_all_from(before, pairs@, k);
                if !(before.contains_key(k) && self.forward@[k] == before[k]) {
                    let i = choose|i: int| 0 <= i < pairs@.len() && pairs@[i] == (k, self.forward@[k]);
                    assert(pair_ok(regions@, is_align, pairs@[i]));
                }
            }
        }
        let ms = modules_of(pages);
        self.index.extend(ms);
        Ok(())
    }

    /// The module file and the pair file of a process over the pages chosen
    /// for scanning.
    pub fn create_pointer_map_file<P: VirtualMemoryRead>(&self, proc: &P, pages: &[Page], is_align: bool) -> (r: Result<
        (Vec<u8>, Vec<u8>),
        Error,
    >)
        ensures
            !pages_wf(pages@) <==> r == Err::<(Vec<u8>, Vec<u8>), Error>(Error::Params),
            r matches Err(e) ==> e == Error::Params || e == Error::Provider,
            pages_wf(pages@) && (forall|i: int| 0 <= i < pages@.len() ==> (#[trigger] pages@[i]).start == pages@[i].end)
                ==> (r matches Ok((info, bin)) && bin@.len() == 0),
            r matches Ok((info, bin)) ==> {
                &&& info@ == module_file(module_list(page_names(pages@)))
                &&& exists|bufs: Seq<Seq<u8>>| #![trigger fits(plan_of(page_regions(pages@)), bufs)]
                    fits(plan_of(page_regions(pages@)), bufs) && bin@ == pairs_bytes(
                        plan_pairs(page_regions(pages@), plan_of(page_regions(pages@)), bufs, is_align),
                    )
                &&& exists|s: Seq<(u64, u64)>| #![trigger pairs_bytes(s)] bin@ == pairs_bytes(s) && forall|i: int| 0 <= i < s.len()
                    ==> pair_ok(page_regions(pages@), is_align, #[trigger] s[i])
            },
    {
        let regions = match regions_of(pages) {
            Some(r) => r,
            None => {
                return Err(Error::Params);
            },
        };
        proof {
            if forall|i: int| 0 <= i < pages@.len() ==> (#[trigger] pages@[i]).start == pages@[i].end {
                assert forall|i: int| 0 <= i < regions@.len() implies (#[trigger] regions@[i]).1 == 0 by {
                    assert(pages@[i].start == pages@[i].end);
                }
            }
        }
        let pairs = match create_pointer_map(proc, regions.as_slice(), is_align) {
            Ok(p) => p,
            Err(e) => {
                return Err(e);
            },
        };
        let ms = modules_of(pages);
        let info = encode_module_file(&ms);
        let bin = encode_pairs(&pairs);
        Ok((info, bin))
    }
}

/// Checks a search's depth and minimum length: the depth at most the limit,
/// the minimum length below the depth.
pub fn check_scan_params(depth: usize, node: usize) -> (r: Result<(), Error>)
    ensures
        depth > MAX_DEPTH || node >= depth <==> r == Err::<(), Error>(Error::Params),
        r is Err ==> r == Err::<(), Error>(Error::Params),
{
    if depth > MAX_DEPTH || node >= depth {
        Err(Error::Params)
    } else {
        Ok(())
    }
}

/// Whether values are in non-decreasing order.
pub fn is_sorted(s: &[u64]) -> (r: bool)
    ensures
        r == sorted(s@),
{
    let n = s.len();
    let mut i: usize = 1;
    if n == 0 {
        return true;
    }
    while i < n
        invariant
            1 <= i <= n == s@.len(),
            forall|a: int, b: int| 0 <= a <= b < i ==> s@[a] <= s@[b],
        decreases n - i,
    {
        if s[i - 1] > s[i] {
            return false;
        }
        assert forall|a: int, b: int| 0 <= a <= b < i + 1 implies s@[a] <= s@[b] by {
            if b == i && a < i {
                assert(s@[a] <= s@[i - 1]);
            }
        }
        i = i + 1;
    }
    true
}

} // verus!
