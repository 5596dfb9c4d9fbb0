//! The pointer-map builder: finds every word whose value points into the
//! scanned regions.

use vstd::prelude::*;
use crate::codec::read_word;
use crate::error::Error;
use crate::num::le_u64;

verus! {

/// Bytes read from the process at a time.
pub const CHUNK: usize = 0x10000;

/// Reads the memory of a process.
pub trait VirtualMemoryRead {
    /// Fills a prefix of `buf` with the bytes at `addr` and returns its length;
    /// fewer bytes than asked for is no failure.
    fn read_at(&self, buf: &mut Vec<u8>, addr: u64) -> Result<usize, Error>;
}

/// Regions `(start, size)` in ascending order, disjoint, within the address space.
pub open spec fn regions_wf(r: Seq<(u64, u64)>) -> bool {
    &&& forall|i: int| 0 <= i < r.len() ==> #[trigger] r[i].0 + r[i].1 <= u64::MAX
    &&& forall|i: int, j: int| 0 <= i < j < r.len() ==> #[trigger] r[i].1 + r[i].0 <= #[trigger] r[j].0
}

/// Region `i` holds address `v`.
pub open spec fn in_region(r: Seq<(u64, u64)>, i: int, v: int) -> bool {
    0 <= i < r.len() && r[i].0 <= v < r[i].0 + r[i].1
}

/// Some region holds address `v`.
pub open spec fn in_regions(r: Seq<(u64, u64)>, v: int) -> bool {
    exists|i: int| #[trigger] in_region(r, i, v)
}

/// The pairs found in `buf`, read from address `base`, at positions from `k`
/// on: a word at each position (every eighth one when `aligned`) whose value
/// lies in a region.
pub open spec fn chunk_pairs(r: Seq<(u64, u64)>, buf: Seq<u8>, base: int, aligned: bool, k: nat) -> Seq<(u64, u64)>
    decreases buf.len() - k,
{
    if k + 8 <= buf.len() {
        let v = le_u64(buf.subrange(k as int, k + 8int));
        let here = if in_regions(r, v as int) {
            seq![((base + k) as u64, v as u64)]
        } else {
            Seq::empty()
        };
        here + chunk_pairs(r, buf, base, aligned, k + if aligned { 8nat } else { 1nat })
    } else {
        Seq::empty()
    }
}

/// Checks that regions are in ascending order, disjoint and within the address space.
pub fn check_regions(r: &[(u64, u64)]) -> (ok: bool)
    ensures
        ok == regions_wf(r@),
{
    let n = r.len();
    let mut i: usize = 0;
    while i < n
        invariant
            n == r@.len(),
            i <= n,
            forall|t: int| 0 <= t < i ==> #[trigger] r@[t].0 + r@[t].1 <= u64::MAX,
            forall|t: int, u: int| 0 <= t < u < i ==> #[trigger] r@[t].1 + r@[t].0 <= #[trigger] r@[u].0,
        decreases n - i,
    {
        let (s, z) = r[i];
        if s > u64::MAX - z {
            return false;
        }
        if i > 0 {
            let (ps, pz) = r[i - 1];
            if ps + pz > s {
                return false;
            }
        }
        assert forall|t: int, u: int| 0 <= t < u < i + 1 implies #[trigger] r@[t].1 + r@[t].0 <= #[trigger] r@[u].0 by {
            if u == i && t < i - 1 {
                assert(r@[t].0 + r@[t].1 <= r@[i - 1].0);
            }
        }
        i = i + 1;
    }
    true
}

/// Whether some region holds `v`, by bisection.
pub fn region_holds(r: &[(u64, u64)], v: u64) -> (b: bool)
    requires
        regions_wf(r@),
    ensures
        b == in_regions(r@, v as int),
{
    let mut lo: usize = 0;
    let mut hi: usize = r.len();
    while lo < hi
        invariant
            regions_wf(r@),
            lo <= hi <= r@.len(),
            forall|i: int| 0 <= i < lo ==> r@[i].0 + r@[i].1 <= v,
            forall|i: int| hi <= i < r@.len() ==> v < r@[i].0,
        decreases hi - lo,
    {
        let m = lo + (hi - lo) / 2;
        let (s, z) = r[m];
        if v < s {
            assert forall|i: int| m <= i < r@.len() implies v < r@[i].0 by {
                if i > m {
                    assert(r@[m as int].0 + r@[m as int].1 <= r@[i].0);
                }
            }
            hi = m;
        } else if v - s < z {
            assert(in_region(r@, m as int, v as int));
            return true;
        } else {
            assert forall|i: int| 0 <= i <= m implies r@[i].0 + r@[i].1 <= v by {
                if i < m {
                    assert(r@[i].0 + r@[i].1 <= r@[m as int].0);
                }
            }
            lo = m + 1;
        }
    }
    proof {
        if in_regions(r@, v as int) {
            let i = choose|i: int| #[trigger] in_region(r@, i, v as int);
            if i < lo {
                assert(r@[i].0 + r@[i].1 <= v);
            } else {
                assert(v < r@[i].0);
            }
        }
    }
    false
}

/// Appends the pairs found in `buf[..len]`, read from address `base`.
pub fn scan_chunk(r: &[(u64, u64)], buf: &[u8], len: usize, base: u64, aligned: bool, out: &mut Vec<(u64, u64)>)
    requires
        regions_wf(r@),
        len <= buf@.len(),
        base + len <= u64::MAX,
    ensures
        final(out)@ == old(out)@ + chunk_pairs(r@, buf@.subrange(0, len as int), base as int, aligned, 0),
{
    let ghost b = buf@.subrange(0, len as int);
    let step: usize = if aligned { 8 } else { 1 };
    let mut k: usize = 0;
    assert(old(out)@ + chunk_pairs(r@, b, base as int, aligned, 0) =~= out@ + chunk_pairs(r@, b, base as int, aligned, 0));
    while k <= len && len - k >= 8
        invariant
            k <= len + 8,
            regions_wf(r@),
            len <= buf@.len(),
            base + len <= u64::MAX,
            b == buf@.subrange(0, len as int),
            step == if aligned { 8usize } else { 1usize },
            out@ + chunk_pairs(r@, b, base as int, aligned, k as nat)
                == old(out)@ + chunk_pairs(r@, b, base as int, aligned, 0),
        decreases len - k,
    {
        let v = read_word(buf, k);
        assert(b.subrange(k as int, k + 8) =~= buf@.subrange(k as int, k + 8));
        let ghost pre = out@;
        if region_holds(r, v) {
            out.push((base + k as u64, v));
        }
        assert(out@ + chunk_pairs(r@, b, base as int, aligned, (k + step) as nat)
            =~= pre + chunk_pairs(r@, b, base as int, aligned, k as nat));
        k = k + step;
    }
    assert(out@ + Seq::<(u64, u64)>::empty() =~= out@);
}

/// A pair the builder may report for `regions`: its value lies in a region,
/// and its word lies wholly inside region `i`, at a multiple of eight bytes
/// from the region's start when `aligned`.
pub open spec fn pair_in_region(r: Seq<(u64, u64)>, aligned: bool, p: (u64, u64), i: int) -> bool {
    &&& 0 <= i < r.len()
    &&& r[i].0 <= p.0
    &&& p.0 + 8 <= r[i].0 + r[i].1
    &&& aligned ==> (p.0 - r[i].0) % 8 == 0
}

pub open spec fn pair_ok(r: Seq<(u64, u64)>, aligned: bool, p: (u64, u64)) -> bool {
    &&& in_regions(r, p.1 as int)
    &&& exists|i: int| #[trigger] pair_in_region(r, aligned, p, i)
}

pub proof fn lemma_chunk_pairs_ok(
    r: Seq<(u64, u64)>,
    buf: Seq<u8>,
    base: int,
    aligned: bool,
    k: nat,
    i: int,
)
    requires
        regions_wf(r),
        0 <= i < r.len(),
        r[i].0 <= base,
        base + buf.len() <= r[i].0 + r[i].1,
        aligned ==> (base - r[i].0) % 8 == 0 && k % 8 == 0,
    ensures
        forall|j: int| 0 <= j < chunk_pairs(r, buf, base, aligned, k).len()
            ==> pair_ok(r, aligned, #[trigger] chunk_pairs(r, buf, base, aligned, k)[j]),
    decreases buf.len() - k,
{
    if k + 8 <= buf.len() {
        let step = if aligned { 8nat } else { 1nat };
        lemma_chunk_pairs_ok(r, buf, base, aligned, k + step, i);
        let v = le_u64(buf.subrange(k as int, k + 8int));
        let p = ((base + k) as u64, v as u64);
        assert(r[i].0 + r[i].1 <= u64::MAX);
        if aligned {
            assert((base + k - r[i].0) % 8 == 0) by (nonlinear_arith)
                requires
                    (base - r[i].0) % 8 == 0,
                    k % 8 == 0,
            ;
        }
        assert(pair_in_region(r, aligned, p, i));
        crate::num::lemma_le_u64_bound(buf.subrange(k as int, k + 8int));
        crate::num::lemma_pow256_8();
        let all = chunk_pairs(r, buf, base, aligned, k);
        let rest = chunk_pairs(r, buf, base, aligned, k + step);
        assert forall|j: int| 0 <= j < all.len() implies pair_ok(r, aligned, #[trigger] all[j]) by {
            if in_regions(r, v as int) {
                if j > 0 {
                    assert(all[j] == rest[j - 1]);
                }
            } else {
                assert(all[j] == rest[j]);
            }
        }
    }
}

/// The chunks of region `(start, size)` from offset `off` on: each read at
/// `start + off`, as long as what is left of the region, at most `CHUNK`.
pub open spec fn region_chunks(start: u64, size: u64, off: nat) -> Seq<(u64, u64)>
    decreases size - off,
{
    if off < size {
        if off + CHUNK < size {
            seq![((start + off) as u64, CHUNK as u64)] + region_chunks(start, size, (off + CHUNK) as nat)
        } else {
            seq![((start + off) as u64, (size - off) as u64)]
        }
    } else {
        Seq::empty()
    }
}

/// The reads a build makes, in order: the chunks of each region in turn.
pub open spec fn plan_of(r: Seq<(u64, u64)>) -> Seq<(u64, u64)>
    decreases r.len(),
{
    if r.len() == 0 {
        Seq::empty()
    } else {
        plan_of(r.drop_last()) + region_chunks(r.last().0, r.last().1, 0)
    }
}

/// Buffers filled by the reads of a plan: one per chunk, none longer than asked.
pub open spec fn fits(plan: Seq<(u64, u64)>, bufs: Seq<Seq<u8>>) -> bool {
    &&& bufs.len() == plan.len()
    &&& forall|c: int| 0 <= c < plan.len() ==> #[trigger] bufs[c].len() <= plan[c].1
}

/// The pairs found in the buffers read for a plan, chunk after chunk.
pub open spec fn plan_pairs(r: Seq<(u64, u64)>, plan: Seq<(u64, u64)>, bufs: Seq<Seq<u8>>, aligned: bool) -> Seq<
    (u64, u64),
>
    decreases plan.len(),
{
    if plan.len() == 0 || bufs.len() == 0 {
        Seq::empty()
    } else {
        plan_pairs(r, plan.drop_last(), bufs.drop_last(), aligned) + chunk_pairs(
            r,
            bufs.last(),
            plan.last().0 as int,
            aligned,
            0,
        )
    }
}

/// Chunk `c` of a plan lies inside a region, at a multiple of eight from its start.
pub open spec fn chunk_in_region(r: Seq<(u64, u64)>, ch: (u64, u64), i: int) -> bool {
    &&& 0 <= i < r.len()
    &&& r[i].0 <= ch.0
    &&& ch.0 + ch.1 <= r[i].0 + r[i].1
    &&& (ch.0 - r[i].0) % 8 == 0
    &&& ch.1 <= CHUNK
}

/// A chunk lies inside some region, at a multiple of eight from its start.
pub open spec fn chunk_ok(r: Seq<(u64, u64)>, ch: (u64, u64)) -> bool {
    exists|i: int| chunk_in_region(r, ch, i)
}

pub proof fn lemma_region_chunks(r: Seq<(u64, u64)>, i: int, off: nat)
    requires
        regions_wf(r),
        0 <= i < r.len(),
        off % 8 == 0,
    ensures
        forall|c: int| 0 <= c < region_chunks(r[i].0, r[i].1, off).len()
            ==> chunk_in_region(r, #[trigger] region_chunks(r[i].0, r[i].1, off)[c], i),
        r[i].1 == 0 ==> region_chunks(r[i].0, r[i].1, off).len() == 0,
    decreases r[i].1 - off,
{
    let (start, size) = r[i];
    assert(r[i].0 + r[i].1 <= u64::MAX);
    if off < size {
        let all = region_chunks(start, size, off);
        if off + CHUNK < size {
            lemma_region_chunks(r, i, (off + CHUNK) as nat);
            let rest = region_chunks(start, size, (off + CHUNK) as nat);
            assert forall|c: int| 0 <= c < all.len() implies chunk_in_region(r, #[trigger] all[c], i) by {
                if c > 0 {
                    assert(all[c] == rest[c - 1]);
                }
            }
        } else {
            assert(all.len() == 1);
            assert(chunk_in_region(r, all[0], i));
        }
    }
}

pub proof fn lemma_plan_of(r: Seq<(u64, u64)>)
    requires
        regions_wf(r),
    ensures
        forall|c: int| 0 <= c < plan_of(r).len() ==> chunk_ok(r, #[trigger] plan_of(r)[c]),
        (forall|i: int| 0 <= i < r.len() ==> (#[trigger] r[i]).1 == 0) ==> plan_of(r).len() == 0,
    decreases r.len(),
{
    if r.len() > 0 {
        let d = r.drop_last();
        assert(regions_wf(d)) by {
            assert forall|i: int, j: int| 0 <= i < j < d.len() implies #[trigger] d[i].1 + d[i].0 <= #[trigger] d[j].0 by {
                assert(r[i].1 + r[i].0 <= r[j].0);
            }
        }
        lemma_plan_of(d);
        lemma_region_chunks(r, r.len() - 1, 0);
        let p = plan_of(r);
        let pd = plan_of(d);
        let last = region_chunks(r.last().0, r.last().1, 0);
        assert forall|c: int| 0 <= c < p.len() implies chunk_ok(r, #[trigger] p[c]) by {
            if c < pd.len() {
                assert(p[c] == pd[c]);
                assert(chunk_ok(d, pd[c]));
                let i = choose|i: int| chunk_in_region(d, pd[c], i);
                assert(r[i] == d[i]);
                assert(chunk_in_region(r, p[c], i));
            } else {
                assert(p[c] == last[c - pd.len()]);
                assert(chunk_in_region(r, p[c], r.len() - 1));
            }
        }
        if forall|i: int| 0 <= i < r.len() ==> (#[trigger] r[i]).1 == 0 {
            assert(r[r.len() - 1].1 == 0);
            assert forall|i: int| 0 <= i < d.len() implies (#[trigger] d[i]).1 == 0 by {
                assert(r[i].1 == 0);
            }
        }
    }
}

/// The reads a build of `regions` makes, in order.
pub fn chunk_plan(regions: &[(u64, u64)]) -> (p: Vec<(u64, u64)>)
    requires
        regions_wf(regions@),
    ensures
        p@ == plan_of(regions@),
{
    let mut out: Vec<(u64, u64)> = Vec::new();
    let mut i: usize = 0;
    while i < regions.len()
        invariant
            regions_wf(regions@),
            i <= regions@.len(),
            out@ == plan_of(regions@.subrange(0, i as int)),
        decreases regions@.len() - i,
    {
        let (start, size) = regions[i];
        assert(regions@[i as int].0 + regions@[i as int].1 <= u64::MAX);
        let ghost before = out@;
        let mut off: u64 = 0;
        assert(before + region_chunks(start, size, 0) =~= out@ + region_chunks(start, size, off as nat));
        while off < size
            invariant
                start + size <= u64::MAX,
                before + region_chunks(start, size, 0) == out@ + region_chunks(start, size, off as nat),
            decreases size - off,
        {
            let want: u64 = if size - off < CHUNK as u64 { size - off } else { CHUNK as u64 };
            let ghost pre = out@;
            out.push((start + off, want));
            if size - off <= CHUNK as u64 {
                assert(out@ =~= pre + region_chunks(start, size, off as nat));
                off = size;
                assert(region_chunks(start, size, off as nat) =~= Seq::<(u64, u64)>::empty());
                assert(out@ + region_chunks(start, size, off as nat) =~= out@);
            } else {
                assert(out@ + region_chunks(start, size, (off + CHUNK as u64) as nat) =~= pre + region_chunks(
                    start,
                    size,
                    off as nat,
                ));
                off = off + CHUNK as u64;
            }
        }
        assert(out@ + region_chunks(start, size, off as nat) =~= out@);
        assert(regions@.subrange(0, i + 1).drop_last() =~= regions@.subrange(0, i as int));
        i = i + 1;
    }
    assert(regions@.subrange(0, i as int) =~= regions@);
    out
}

/// Builds the pointer map of a process over `regions`: every word (every
/// aligned one when `aligned`) whose value lies in one of them. The regions
/// are read chunk by chunk as `chunk_plan` lists them; a short read examines
/// what it filled. A failed read stops the build.
pub fn create_pointer_map<P: VirtualMemoryRead>(proc: &P, regions: &[(u64, u64)], aligned: bool) -> (r: Result<
    Vec<(u64, u64)>,
    Error,
>)
    requires
        regions_wf(regions@),
    ensures
        r matches Ok(pairs) ==> exists|bufs: Seq<Seq<u8>>| #![trigger fits(plan_of(regions@), bufs)]
            fits(plan_of(regions@), bufs) && pairs@ == plan_pairs(regions@, plan_of(regions@), bufs, aligned),
        r matches Ok(pairs) ==> forall|j: int| 0 <= j < pairs@.len() ==> pair_ok(regions@, aligned, #[trigger] pairs@[j]),
        r matches Ok(pairs) ==> ascending_locs(pairs@),
        r matches Err(e) ==> e == Error::Provider,
        (forall|i: int| 0 <= i < regions@.len() ==> (#[trigger] regions@[i]).1 == 0) ==> (r matches Ok(p) && p@.len()
            == 0),
{
    let plan = chunk_plan(regions);
    proof {
        lemma_plan_of(regions@);
    }
    let mut out: Vec<(u64, u64)> = Vec::new();
    let ghost mut bufs: Seq<Seq<u8>> = Seq::empty();
    let mut c: usize = 0;
    while c < plan.len()
        invariant
            regions_wf(regions@),
            plan@ == plan_of(regions@),
            (forall|i: int| 0 <= i < regions@.len() ==> (#[trigger] regions@[i]).1 == 0) ==> plan@.len() == 0,
            c <= plan@.len(),
            forall|q: int| 0 <= q < plan@.len() ==> chunk_ok(regions@, #[trigger] plan@[q]),
            fits(plan@.subrange(0, c as int), bufs),
            out@ == plan_pairs(regions@, plan@.subrange(0, c as int), bufs, aligned),
            forall|j: int| 0 <= j < out@.len() ==> pair_ok(regions@, aligned, #[trigger] out@[j]),
        decreases plan@.len() - c,
    {
        let (addr, want) = plan[c];
        assert(chunk_ok(regions@, plan@[c as int]));
        let ghost i = choose|i: int| chunk_in_region(regions@, plan@[c as int], i);
        assert(regions@[i].0 + regions@[i].1 <= u64::MAX);
        let mut buf: Vec<u8> = vec![0u8; want as usize];
        let n = match proc.read_at(&mut buf, addr) {
            Ok(n) => n,
            Err(_) => {
                return Err(Error::Provider);
            },
        };
        let mut len = n;
        if len > buf.len() {
            len = buf.len();
        }
        if len as u64 > want {
            len = want as usize;
        }
        let ghost pre = out@;
        scan_chunk(regions, &buf, len, addr, aligned, &mut out);
        proof {
            let b = buf@.subrange(0, len as int);
            lemma_chunk_pairs_ok(regions@, b, addr as int, aligned, 0, i);
            let ch = chunk_pairs(regions@, b, addr as int, aligned, 0);
            assert forall|j: int| 0 <= j < out@.len() implies pair_ok(regions@, aligned, #[trigger] out@[j]) by {
                if j >= pre.len() {
                    assert(out@[j] == ch[j - pre.len()]);
                } else {
                    assert(out@[j] == pre[j]);
                }
            }
            let old_bufs = bufs;
            bufs = bufs.push(b);
            let sub = plan@.subrange(0, c + 1);
            assert(sub.drop_last() =~= plan@.subrange(0, c as int));
            assert(bufs.drop_last() =~= old_bufs);
            assert forall|q: int| 0 <= q < sub.len() implies #[trigger] bufs[q].len() <= sub[q].1 by {
                if q < c {
                    assert(bufs[q] == old_bufs[q]);
                }
            }
        }
        c = c + 1;
    }
    assert(plan@.subrange(0, c as int) =~= plan@);
    proof {
        law_build_ascending(regions@, bufs, aligned);
    }
    Ok(out)
}

/// Locations strictly ascending.
pub open spec fn ascending_locs(s: Seq<(u64, u64)>) -> bool {
    forall|i: int, j: int| 0 <= i < j < s.len() ==> (#[trigger] s[i]).0 < (#[trigger] s[j]).0
}

/// Every location in `s` lies in `[lo, hi)`.
pub open spec fn locs_within(s: Seq<(u64, u64)>, lo: int, hi: int) -> bool {
    forall|i: int| 0 <= i < s.len() ==> lo <= (#[trigger] s[i]).0 < hi
}

proof fn lemma_chunk_pairs_order(r: Seq<(u64, u64)>, buf: Seq<u8>, base: int, aligned: bool, k: nat)
    requires
        0 <= base,
        base + buf.len() <= u64::MAX,
    ensures
        ascending_locs(chunk_pairs(r, buf, base, aligned, k)),
        locs_within(chunk_pairs(r, buf, base, aligned, k), base + k, base + buf.len()),
    decreases buf.len() - k,
{
    if k + 8 <= buf.len() {
        let step = if aligned { 8nat } else { 1nat };
        lemma_chunk_pairs_order(r, buf, base, aligned, k + step);
        let all = chunk_pairs(r, buf, base, aligned, k);
        let rest = chunk_pairs(r, buf, base, aligned, k + step);
        let v = le_u64(buf.subrange(k as int, k + 8int));
        if in_regions(r, v as int) {
            assert(all[0].0 == base + k);
            assert forall|i: int| 0 <= i < all.len() implies base + k <= (#[trigger] all[i]).0 < base + buf.len() by {
                if i > 0 {
                    assert(all[i] == rest[i - 1]);
                }
            }
            assert forall|i: int, j: int| 0 <= i < j < all.len() implies (#[trigger] all[i]).0 < (#[trigger] all[j]).0 by {
                assert(all[j] == rest[j - 1]);
                if i > 0 {
                    assert(all[i] == rest[i - 1]);
                }
            }
        } else {
            assert(all =~= rest);
        }
    }
}

/// The chunks of a plan are in ascending order and do not overlap.
pub open spec fn plan_ordered(p: Seq<(u64, u64)>) -> bool {
    forall|c: int, d: int| 0 <= c < d < p.len() ==> (#[trigger] p[c]).0 + p[c].1 <= (#[trigger] p[d]).0
}

proof fn lemma_region_chunks_order(start: u64, size: u64, off: nat)
    requires
        start + size <= u64::MAX,
    ensures
        plan_ordered(region_chunks(start, size, off)),
        forall|c: int| 0 <= c < region_chunks(start, size, off).len() ==> start + off <= (#[trigger] region_chunks(start, size, off)[c]).0
            && region_chunks(start, size, off)[c].0 + region_chunks(start, size, off)[c].1 <= start + size,
    decreases size - off,
{
    if off < size && off + CHUNK < size {
        lemma_region_chunks_order(start, size, (off + CHUNK) as nat);
        let all = region_chunks(start, size, off);
        let rest = region_chunks(start, size, (off + CHUNK) as nat);
        assert forall|c: int| 0 <= c < all.len() implies start + off <= (#[trigger] all[c]).0 && all[c].0 + all[c].1 <= start + size by {
            if c > 0 {
                assert(all[c] == rest[c - 1]);
            }
        }
        assert forall|c: int, d: int| 0 <= c < d < all.len() implies (#[trigger] all[c]).0 + all[c].1 <= (#[trigger] all[d]).0 by {
            assert(all[d] == rest[d - 1]);
            if c > 0 {
                assert(all[c] == rest[c - 1]);
            }
        }
    }
}

proof fn lemma_plan_order(r: Seq<(u64, u64)>)
    requires
        regions_wf(r),
    ensures
        plan_ordered(plan_of(r)),
        r.len() > 0 ==> forall|c: int| 0 <= c < plan_of(r).len() ==> (#[trigger] plan_of(r)[c]).0 + plan_of(r)[c].1 <= r.last().0 + r.last().1,
    decreases r.len(),
{
    if r.len() > 0 {
        let d = r.drop_last();
        assert(regions_wf(d)) by {
            assert forall|i: int, j: int| 0 <= i < j < d.len() implies #[trigger] d[i].1 + d[i].0 <= #[trigger] d[j].0 by {
                assert(r[i].1 + r[i].0 <= r[j].0);
            }
        }
        lemma_plan_order(d);
        let last = r.last();
        assert(r[r.len() - 1].0 + r[r.len() - 1].1 <= u64::MAX);
        lemma_region_chunks_order(last.0, last.1, 0);
        let pd = plan_of(d);
        let lc = region_chunks(last.0, last.1, 0);
        let p = plan_of(r);
        if d.len() > 0 {
            assert(r[d.len() - 1].1 + r[d.len() - 1].0 <= r[r.len() - 1].0);
        }
        assert forall|c: int| 0 <= c < p.len() implies (#[trigger] p[c]).0 + p[c].1 <= r.last().0 + r.last().1 by {
            if c < pd.len() {
                assert(p[c] == pd[c]);
            } else {
                assert(p[c] == lc[c - pd.len()]);
            }
        }
        assert forall|c: int, e: int| 0 <= c < e < p.len() implies (#[trigger] p[c]).0 + p[c].1 <= (#[trigger] p[e]).0 by {
            if e < pd.len() {
                assert(p[c] == pd[c] && p[e] == pd[e]);
            } else if c < pd.len() {
                assert(p[c] == pd[c]);
                assert(p[e] == lc[e - pd.len()]);
            } else {
                assert(p[c] == lc[c - pd.len()]);
                assert(p[e] == lc[e - pd.len()]);
            }
        }
    }
}

proof fn lemma_plan_pairs_order(r: Seq<(u64, u64)>, p: Seq<(u64, u64)>, bufs: Seq<Seq<u8>>, aligned: bool)
    requires
        plan_ordered(p),
        fits(p, bufs),
        forall|c: int| 0 <= c < p.len() ==> (#[trigger] p[c]).0 + p[c].1 <= u64::MAX,
    ensures
        ascending_locs(plan_pairs(r, p, bufs, aligned)),
        p.len() > 0 ==> locs_within(plan_pairs(r, p, bufs, aligned), 0, p.last().0 + p.last().1),
    decreases p.len(),
{
    if p.len() > 0 {
        let pd = p.drop_last();
        let bd = bufs.drop_last();
        assert(fits(pd, bd)) by {
            assert forall|c: int| 0 <= c < pd.len() implies #[trigger] bd[c].len() <= pd[c].1 by {
                assert(bufs[c].len() <= p[c].1);
            }
        }
        assert(plan_ordered(pd)) by {
            assert forall|c: int, d: int| 0 <= c < d < pd.len() implies (#[trigger] pd[c]).0 + pd[c].1 <= (#[trigger] pd[d]).0 by {
                assert(p[c].0 + p[c].1 <= p[d].0);
            }
        }
        lemma_plan_pairs_order(r, pd, bd, aligned);
        let last = p.last();
        assert(bufs.last().len() <= last.1) by {
            assert(bufs[p.len() - 1].len() <= p[p.len() - 1].1);
        }
        assert(last.0 + last.1 <= u64::MAX) by {
            assert(p[p.len() - 1].0 + p[p.len() - 1].1 <= u64::MAX);
        }
        lemma_chunk_pairs_order(r, bufs.last(), last.0 as int, aligned, 0);
        let a = plan_pairs(r, pd, bd, aligned);
        let ch = chunk_pairs(r, bufs.last(), last.0 as int, aligned, 0);
        let all = plan_pairs(r, p, bufs, aligned);
        assert(all == a + ch);
        if pd.len() > 0 {
            assert(pd.last().0 + pd.last().1 <= last.0) by {
                assert(p[p.len() - 2].0 + p[p.len() - 2].1 <= p[p.len() - 1].0);
            }
        }
        assert forall|i: int| 0 <= i < all.len() implies 0 <= (#[trigger] all[i]).0 < last.0 + last.1 by {
            if i < a.len() {
                assert(all[i] == a[i]);
            } else {
                assert(all[i] == ch[i - a.len()]);
            }
        }
        assert forall|i: int, j: int| 0 <= i < j < all.len() implies (#[trigger] all[i]).0 < (#[trigger] all[j]).0 by {
            if j < a.len() {
                assert(all[i] == a[i] && all[j] == a[j]);
            } else if i < a.len() {
                assert(all[i] == a[i]);
                assert(all[j] == ch[j - a.len()]);
            } else {
                assert(all[i] == ch[i - a.len()]);
                assert(all[j] == ch[j - a.len()]);
            }
        }
    }
}

/// The pairs a build finds are in strictly ascending order of location,
/// whatever the reads returned.
pub proof fn law_build_ascending(r: Seq<(u64, u64)>, bufs: Seq<Seq<u8>>, aligned: bool)
    requires
        regions_wf(r),
        fits(plan_of(r), bufs),
    ensures
        ascending_locs(plan_pairs(r, plan_of(r), bufs, aligned)),
{
    lemma_plan_order(r);
    lemma_plan_of(r);
    let p = plan_of(r);
    assert forall|c: int| 0 <= c < p.len() implies (#[trigger] p[c]).0 + p[c].1 <= u64::MAX by {
        assert(chunk_ok(r, p[c]));
        let i = choose|i: int| chunk_in_region(r, p[c], i);
        assert(r[i].0 + r[i].1 <= u64::MAX);
    }
    lemma_plan_pairs_order(r, p, bufs, aligned);
}

} // verus!
