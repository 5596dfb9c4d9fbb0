//! Intersecting two result files by whole lines.

use std::collections::BTreeMap;
use vstd::prelude::*;
use crate::codec::{find_byte, find_in, lemma_find_byte, strip_cr};
use crate::region::equals;

verus! {

broadcast use {vstd::std_specs::btree::group_btree_axioms, vstd::laws_cmp::group_laws_cmp};

/// The lines of a text: split at each line feed, a carriage return before it
/// dropped; a final line feed ends the last line rather than starting one.
pub open spec fn lines_of(t: Seq<u8>) -> Seq<Seq<u8>>
    decreases t.len(),
{
    if t.len() == 0 {
        Seq::empty()
    } else {
        let p = match find_byte(t, 10) {
            Some(p) => p,
            None => t.len() as int,
        };
        if 0 <= p <= t.len() {
            let rest = if p < t.len() { t.subrange(p + 1, t.len() as int) } else { Seq::empty() };
            seq![strip_cr(t.subrange(0, p))] + lines_of(rest)
        } else {
            Seq::empty()
        }
    }
}

/// The lines of `la` that occur in `lb`, each once, in order of first occurrence.
pub open spec fn intersect(la: Seq<Seq<u8>>, lb: Seq<Seq<u8>>) -> Seq<Seq<u8>>
    decreases la.len(),
{
    if la.len() == 0 {
        Seq::empty()
    } else {
        let r = intersect(la.drop_last(), lb);
        if lb.contains(la.last()) && !r.contains(la.last()) {
            r.push(la.last())
        } else {
            r
        }
    }
}

/// Lines, each followed by a line feed.
pub open spec fn join_lines(ls: Seq<Seq<u8>>) -> Seq<u8>
    decreases ls.len(),
{
    if ls.len() == 0 {
        Seq::empty()
    } else {
        join_lines(ls.drop_last()) + ls.last() + seq![10u8]
    }
}

/// A 64-bit FNV-1a digest of a line, used to bucket lines.
pub open spec fn fnv(s: Seq<u8>) -> u64
    decreases s.len(),
{
    if s.len() == 0 {
        0xcbf2_9ce4_8422_2325
    } else {
        (fnv(s.drop_last()) ^ (s.last() as u64)).wrapping_mul(0x100_0000_01b3)
    }
}

fn fnv_in(t: &[u8], lo: usize, hi: usize) -> (h: u64)
    requires
        lo <= hi <= t@.len(),
    ensures
        h == fnv(t@.subrange(lo as int, hi as int)),
{
    let mut h: u64 = 0xcbf2_9ce4_8422_2325;
    let mut i = lo;
    assert(t@.subrange(lo as int, lo as int) =~= Seq::<u8>::empty());
    while i < hi
        invariant
            lo <= i <= hi <= t@.len(),
            h == fnv(t@.subrange(lo as int, i as int)),
        decreases hi - i,
    {
        assert(t@.subrange(lo as int, i + 1).drop_last() =~= t@.subrange(lo as int, i as int));
        h = (h ^ (t[i] as u64)).wrapping_mul(0x100_0000_01b3);
        i = i + 1;
    }
    h
}

/// The bounds of each line of `t`.
fn line_bounds(t: &[u8]) -> (r: Vec<(usize, usize)>)
    ensures
        forall|j: int| 0 <= j < r@.len() ==> (#[trigger] r@[j]).0 <= r@[j].1 <= t@.len(),
        r@.map_values(|b: (usize, usize)| t@.subrange(b.0 as int, b.1 as int)) == lines_of(t@),
{
    let n = t.len();
    let mut out: Vec<(usize, usize)> = Vec::new();
    let mut p: usize = 0;
    assert(t@.subrange(0, n as int) =~= t@);
    while p < n
        invariant
            n == t@.len(),
            p <= n,
            forall|j: int| 0 <= j < out@.len() ==> (#[trigger] out@[j]).0 <= out@[j].1 <= t@.len(),
            out@.map_values(|b: (usize, usize)| t@.subrange(b.0 as int, b.1 as int)) + lines_of(
                t@.subrange(p as int, n as int),
            ) == lines_of(t@),
        decreases n - p,
    {
        let ghost rest = t@.subrange(p as int, n as int);
        proof {
            lemma_find_byte(rest, 10);
        }
        let e = match find_in(t, p, n, 10) {
            Some(i) => p + i,
            None => n,
        };
        let mut stop = e;
        if stop > p && t[stop - 1] == 13 {
            stop = stop - 1;
        }
        assert(strip_cr(rest.subrange(0, e - p)) =~= t@.subrange(p as int, stop as int));
        let next = if e < n { e + 1 } else { n };
        let ghost tail = if e < n { rest.subrange(e - p + 1, rest.len() as int) } else { Seq::<u8>::empty() };
        assert(tail =~= t@.subrange(next as int, n as int));
        let ghost pre = out@.map_values(|b: (usize, usize)| t@.subrange(b.0 as int, b.1 as int));
        out.push((p, stop));
        assert(out@.map_values(|b: (usize, usize)| t@.subrange(b.0 as int, b.1 as int)) =~= pre.push(
            t@.subrange(p as int, stop as int),
        ));
        assert(out@.map_values(|b: (usize, usize)| t@.subrange(b.0 as int, b.1 as int)) + lines_of(
            t@.subrange(next as int, n as int),
        ) =~= pre + lines_of(rest));
        p = next;
    }
    assert(t@.subrange(p as int, n as int) =~= Seq::<u8>::empty());
    assert(out@.map_values(|b: (usize, usize)| t@.subrange(b.0 as int, b.1 as int)) + Seq::<Seq<u8>>::empty()
        =~= out@.map_values(|b: (usize, usize)| t@.subrange(b.0 as int, b.1 as int)));
    out
}

pub open spec fn line_at(t: Seq<u8>, bd: Seq<(usize, usize)>, j: int) -> Seq<u8> {
    t.subrange(bd[j].0 as int, bd[j].1 as int)
}

/// `idx` buckets by digest exactly the lines of `t` whose positions are in `s`.
pub open spec fn idx_ok(idx: Map<u64, Vec<usize>>, t: Seq<u8>, bd: Seq<(usize, usize)>, s: Set<int>) -> bool {
    &&& forall|j: int| #[trigger] s.contains(j) ==> 0 <= j < bd.len() && idx.contains_key(fnv(line_at(t, bd, j)))
        && idx[fnv(line_at(t, bd, j))]@.contains(j as usize)
    &&& forall|h: u64, q: int| idx.contains_key(h) && 0 <= q < idx[h]@.len() ==> s.contains(
        #[trigger] idx[h]@[q] as int,
    ) && fnv(line_at(t, bd, idx[h]@[q] as int)) == h
}

/// Whether some line of `t` at a position in `s` equals `w[lo..hi]`.
#[verifier::rlimit(50)]
fn idx_has(
    idx: &BTreeMap<u64, Vec<usize>>,
    t: &[u8],
    bd: &Vec<(usize, usize)>,
    w: &[u8],
    lo: usize,
    hi: usize,
    s: Ghost<Set<int>>,
) -> (r: bool)
    requires
        lo <= hi <= w@.len(),
        idx_ok(idx@, t@, bd@, s@),
        forall|j: int| 0 <= j < bd@.len() ==> (#[trigger] bd@[j]).0 <= bd@[j].1 <= t@.len(),
    ensures
        r == exists|j: int| #[trigger] s@.contains(j) && line_at(t@, bd@, j) == w@.subrange(lo as int, hi as int),
{
    let ghost l = w@.subrange(lo as int, hi as int);
    let nb = bd.len();
    let h = fnv_in(w, lo, hi);
    match idx.get(&h) {
        None => {
            proof {
                if exists|j: int| #[trigger] s@.contains(j) && line_at(t@, bd@, j) == l {
                    let j = choose|j: int| #[trigger] s@.contains(j) && line_at(t@, bd@, j) == l;
                    assert(fnv(line_at(t@, bd@, j)) == h);
                    assert(idx@.contains_key(fnv(line_at(t@, bd@, j))));
                }
            }
            false
        },
        Some(bucket) => {
            let mut q: usize = 0;
            while q < bucket.len()
                invariant
                    idx@.contains_key(h) && idx@[h] == *bucket,
                    idx_ok(idx@, t@, bd@, s@),
                    forall|j: int| 0 <= j < bd@.len() ==> (#[trigger] bd@[j]).0 <= bd@[j].1 <= t@.len(),
                    lo <= hi <= w@.len(),
                    l == w@.subrange(lo as int, hi as int),
                    q <= bucket@.len(),
                    forall|u: int| 0 <= u < q ==> line_at(t@, bd@, (#[trigger] bucket@[u]) as int) != l,
                decreases bucket@.len() - q,
            {
                let j = bucket[q];
                assert(s@.contains(bucket@[q as int] as int));
                let (a, b) = bd[j];
                if equals(&t[a..b], &w[lo..hi]) {
                    assert(line_at(t@, bd@, j as int) == l) by {
                        assert(t@.subrange(a as int, b as int) =~= line_at(t@, bd@, j as int));
                    }
                    assert(s@.contains(j as int));
                    return true;
                }
                proof {
                    assert(t@.subrange(a as int, b as int) =~= line_at(t@, bd@, j as int));
                    assert(w@.subrange(lo as int, hi as int) =~= l);
                }
                q = q + 1;
            }
            proof {
                if exists|j: int| #[trigger] s@.contains(j) && line_at(t@, bd@, j) == l {
                    let j = choose|j: int| #[trigger] s@.contains(j) && line_at(t@, bd@, j) == l;
                    assert(fnv(line_at(t@, bd@, j)) == h);
                    assert(bucket@.contains(j as usize));
                    let u = choose|u: int| 0 <= u < bucket@.len() && bucket@[u] == j as usize;
                    assert(0 <= j < bd@.len());
                    assert(bucket@[u] as int == j);
                    assert(line_at(t@, bd@, bucket@[u] as int) != l);
                }
            }
            false
        },
    }
}

/// Adds the line at position `j` to `idx`.
fn idx_add(idx: &mut BTreeMap<u64, Vec<usize>>, t: &[u8], bd: &Vec<(usize, usize)>, j: usize, s: Ghost<Set<int>>)
    requires
        idx_ok(old(idx)@, t@, bd@, s@),
        j < bd@.len(),
        forall|u: int| 0 <= u < bd@.len() ==> (#[trigger] bd@[u]).0 <= bd@[u].1 <= t@.len(),
    ensures
        idx_ok(final(idx)@, t@, bd@, s@.insert(j as int)),
{
    let (a, b) = bd[j];
    let h = fnv_in(t, a, b);
    let ghost before = idx@;
    let bucket = match idx.remove(&h) {
        Some(mut v) => {
            v.push(j);
            v
        },
        None => {
            let mut v: Vec<usize> = Vec::new();
            v.push(j);
            v
        },
    };
    let ghost nb = bucket@;
    idx.insert(h, bucket);
    proof {
        let s2 = s@.insert(j as int);
        assert(h == fnv(line_at(t@, bd@, j as int)));
        assert forall|u: int| #[trigger] s2.contains(u) implies 0 <= u < bd@.len() && idx@.contains_key(
            fnv(line_at(t@, bd@, u)),
        ) && idx@[fnv(line_at(t@, bd@, u))]@.contains(u as usize) by {
            if u == j {
                assert(nb[nb.len() - 1] == j);
            } else {
                let hu = fnv(line_at(t@, bd@, u));
                assert(before.contains_key(hu));
                if hu == h {
                    let k = choose|k: int| 0 <= k < before[hu]@.len() && before[hu]@[k] == u as usize;
                    assert(nb[k] == u as usize);
                }
            }
        }
        assert forall|hh: u64, q: int| idx@.contains_key(hh) && 0 <= q < idx@[hh]@.len() implies s2.contains(
            #[trigger] idx@[hh]@[q] as int,
        ) && fnv(line_at(t@, bd@, idx@[hh]@[q] as int)) == hh by {
            if hh == h {
                if before.contains_key(h) && q < before[h]@.len() {
                    assert(idx@[hh]@[q] == before[h]@[q]);
                }
            } else {
                assert(idx@[hh] == before[hh]);
            }
        }
    }
}

/// The lines of `a` that also occur in `b`, each once, in order of first
/// occurrence in `a`, each followed by a line feed.
pub fn intersect_lines(a: &[u8], b: &[u8]) -> (r: Vec<u8>)
    ensures
        r@ == join_lines(intersect(lines_of(a@), lines_of(b@))),
{
    let ba = line_bounds(a);
    let bb = line_bounds(b);
    let ghost la = lines_of(a@);
    let ghost lb = lines_of(b@);
    assert(la.len() == ba@.len());
    assert(lb.len() == bb@.len());
    let mut idx_b: BTreeMap<u64, Vec<usize>> = BTreeMap::new();
    let ghost mut sb: Set<int> = Set::empty();
    let mut k: usize = 0;
    while k < bb.len()
        invariant
            k <= bb@.len(),
            forall|u: int| 0 <= u < bb@.len() ==> (#[trigger] bb@[u]).0 <= bb@[u].1 <= b@.len(),
            idx_ok(idx_b@, b@, bb@, sb),
            forall|u: int| #[trigger] sb.contains(u) <==> 0 <= u < k,
        decreases bb@.len() - k,
    {
        idx_add(&mut idx_b, b, &bb, k, Ghost(sb));
        proof {
            sb = sb.insert(k as int);
        }
        k = k + 1;
    }
    let mut seen: BTreeMap<u64, Vec<usize>> = BTreeMap::new();
    let ghost mut sa: Set<int> = Set::empty();
    let mut out: Vec<u8> = Vec::new();
    let ghost mut res: Seq<Seq<u8>> = Seq::empty();
    let mut i: usize = 0;
    while i < ba.len()
        invariant
            i <= ba@.len(),
            la == lines_of(a@),
            lb == lines_of(b@),
            la == ba@.map_values(|x: (usize, usize)| a@.subrange(x.0 as int, x.1 as int)),
            lb == bb@.map_values(|x: (usize, usize)| b@.subrange(x.0 as int, x.1 as int)),
            forall|u: int| 0 <= u < bb@.len() ==> (#[trigger] bb@[u]).0 <= bb@[u].1 <= b@.len(),
            forall|u: int| 0 <= u < ba@.len() ==> (#[trigger] ba@[u]).0 <= ba@[u].1 <= a@.len(),
            idx_ok(idx_b@, b@, bb@, sb),
            forall|u: int| #[trigger] sb.contains(u) <==> 0 <= u < bb@.len(),
            idx_ok(seen@, a@, ba@, sa),
            forall|u: int| #[trigger] sa.contains(u) ==> 0 <= u < i,
            forall|x: Seq<u8>| res.contains(x) <==> exists|u: int| #[trigger] sa.contains(u) && line_at(a@, ba@, u) == x,
            res == intersect(la.subrange(0, i as int), lb),
            out@ == join_lines(res),
        decreases ba@.len() - i,
    {
        let (lo, hi) = ba[i];
        let ghost l = a@.subrange(lo as int, hi as int);
        assert(la[i as int] == l);
        let in_b = idx_has(&idx_b, b, &bb, a, lo, hi, Ghost(sb));
        proof {
            if in_b {
                let j = choose|j: int| #[trigger] sb.contains(j) && line_at(b@, bb@, j) == l;
                assert(lb[j] == l);
            }
            if lb.contains(l) {
                let j = choose|j: int| 0 <= j < lb.len() && lb[j] == l;
                assert(sb.contains(j) && line_at(b@, bb@, j) == l);
            }
        }
        let dup = idx_has(&seen, a, &ba, a, lo, hi, Ghost(sa));
        let ghost sub = la.subrange(0, i + 1);
        assert(sub.drop_last() =~= la.subrange(0, i as int));
        assert(sub.last() == l);
        if in_b && !dup {
            idx_add(&mut seen, a, &ba, i, Ghost(sa));
            let mut k2 = lo;
            let ghost pre = out@;
            while k2 < hi
                invariant
                    lo <= k2 <= hi <= a@.len(),
                    out@ == pre + a@.subrange(lo as int, k2 as int),
                decreases hi - k2,
            {
                out.push(a[k2]);
                assert(out@ =~= pre + a@.subrange(lo as int, k2 + 1));
                k2 = k2 + 1;
            }
            out.push(10u8);
            proof {
                let old_res = res;
                let old_sa = sa;
                res = res.push(l);
                sa = sa.insert(i as int);
                assert(res.drop_last() =~= old_res);
                assert(out@ =~= join_lines(res));
                assert forall|x: Seq<u8>| res.contains(x) <==> exists|u: int| #[trigger] sa.contains(u) && line_at(a@, ba@, u) == x by {
                    if res.contains(x) {
                        let q = choose|q: int| 0 <= q < res.len() && res[q] == x;
                        if q < old_res.len() {
                            assert(old_res[q] == x);
                            assert(old_res.contains(x));
                            let u = choose|u: int| #[trigger] old_sa.contains(u) && line_at(a@, ba@, u) == x;
                            assert(sa.contains(u));
                        } else {
                            assert(sa.contains(i as int) && line_at(a@, ba@, i as int) == x);
                        }
                    }
                    if exists|u: int| #[trigger] sa.contains(u) && line_at(a@, ba@, u) == x {
                        let u = choose|u: int| #[trigger] sa.contains(u) && line_at(a@, ba@, u) == x;
                        if u == i {
                            assert(res[res.len() - 1] == x);
                        } else {
                            assert(old_sa.contains(u));
                            assert(old_res.contains(x));
                            let q = choose|q: int| 0 <= q < old_res.len() && old_res[q] == x;
                            assert(res[q] == x);
                        }
                    }
                }
            }
        }
        i = i + 1;
    }
    assert(la.subrange(0, i as int) =~= la);
    out
}

} // verus!
