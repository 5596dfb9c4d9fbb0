//! What holds of every search: chain lengths, the window at each head, and
//! that each chain leads back to the target through the forward map.

use vstd::prelude::*;
use crate::codec::{decode_pairs, lemma_decode_pairs_bytes, pairs_bytes};
use crate::index::{
    entry_keys, lemma_locs_of_hold, lemma_map_of_at, lists, locs_of, map_of, reverse_of, sorted_entries_of, sorted_keys,
};
use crate::scan::{
    has_root, link_to, scan_output, walk, walk_keys, walk_locs, window_hi, window_lo, Bounds, Emit, Found, Link,
};
use crate::scanner::{insert_all, module_roots, user_bounds, user_emit, PtrsxScanner, UserParam};

verus! {

/// Every location listed for a value holds that value in the forward map.
pub open spec fn rev_sound(fwd: Map<u64, u64>, e: Seq<(u64, Seq<u64>)>) -> bool {
    forall|i: int, j: int|
        0 <= i < e.len() && 0 <= j < e[i].1.len() ==> fwd.contains_key(#[trigger] e[i].1[j]) && fwd[e[i].1[j]] == e[i].0
}

/// Follows a chain from its head: read the word at the address, add the
/// outermost remaining offset, and repeat; none when a read finds nothing.
pub open spec fn resolve(fwd: Map<u64, u64>, a: u64, s: Seq<Link>) -> Option<u64>
    decreases s.len(),
{
    if s.len() == 0 {
        Some(a)
    } else if fwd.contains_key(a) {
        resolve(fwd, fwd[a].wrapping_add(s.last().1 as u64), s.drop_last())
    } else {
        None
    }
}

/// What holds of each chain `x` found from the node at `a` with links `s`.
pub open spec fn found_ok(
    fwd: Map<u64, u64>,
    e: Seq<(u64, Seq<u64>)>,
    roots: Seq<u64>,
    b: Bounds,
    t: u64,
    a: u64,
    s: Seq<Link>,
    x: Found,
) -> bool {
    &&& b.node <= x.1.len() <= b.depth
    &&& has_root(roots, window_lo(x.0, b), window_hi(x.0, b))
    &&& (rev_sound(fwd, e) && resolve(fwd, a, s) == Some(t)) ==> resolve(fwd, x.0, x.1) == Some(t)
    &&& (b.above == 0 && b.below == 0 && zero_offsets(s)) ==> zero_offsets(x.1)
    &&& (b.above == 0 && b.below == 0 && reachable(e, t, a, s.len())) ==> reachable(e, t, x.0, x.1.len())
}

/// Location `l` holds exactly `a`.
pub open spec fn exact_step(e: Seq<(u64, Seq<u64>)>, a: u64, l: u64) -> bool {
    exists|i: int, j: int| 0 <= i < e.len() && 0 <= j < e[i].1.len() && e[i].0 == a && #[trigger] e[i].1[j] == l
}

/// `x` is `t`, or reached from it by at most `n` steps, each to a location
/// that holds exactly the address before it.
pub open spec fn reachable(e: Seq<(u64, Seq<u64>)>, t: u64, x: u64, n: nat) -> bool
    decreases n,
{
    if n == 0 {
        x == t
    } else {
        reachable(e, t, x, (n - 1) as nat) || exists|y: u64| reachable(e, t, y, (n - 1) as nat) && #[trigger] exact_step(e, y, x)
    }
}

pub proof fn lemma_reachable_step(e: Seq<(u64, Seq<u64>)>, t: u64, a: u64, l: u64, n: nat)
    requires
        reachable(e, t, a, n),
        exact_step(e, a, l),
    ensures
        reachable(e, t, l, n + 1),
{
    assert(((n + 1) - 1) as nat == n);
    assert(reachable(e, t, a, ((n + 1) - 1) as nat));
}

pub proof fn lemma_reachable_mono(e: Seq<(u64, Seq<u64>)>, t: u64, x: u64, n: nat, m: nat)
    requires
        n <= m,
        reachable(e, t, x, n),
    ensures
        reachable(e, t, x, m),
    decreases m - n,
{
    if n < m {
        lemma_reachable_mono(e, t, x, n, (m - 1) as nat);
    }
}

/// Every link's offset is zero.
pub open spec fn zero_offsets(s: Seq<Link>) -> bool {
    forall|j: int| 0 <= j < s.len() ==> (#[trigger] s[j]).1 == 0
}

proof fn lemma_link_back(a: u64, k: u64)
    ensures
        k.wrapping_add(link_to(a, k).1 as u64) == a,
{
    let d = a.wrapping_sub(k);
    assert(k.wrapping_add((d as i64) as u64) == a) by (bit_vector)
        requires
            d == a.wrapping_sub(k),
    ;
}

pub proof fn lemma_walk_found(
    fwd: Map<u64, u64>,
    e: Seq<(u64, Seq<u64>)>,
    roots: Seq<u64>,
    b: Bounds,
    t: u64,
    a: u64,
    lv: nat,
    s: Seq<Link>,
)
    requires
        lv >= 1,
        s.len() == lv - 1,
        lv <= b.depth + 1,
    ensures
        forall|j: int| 0 <= j < walk(e, roots, b, a, lv, s).len()
            ==> found_ok(fwd, e, roots, b, t, a, s, #[trigger] walk(e, roots, b, a, lv, s)[j]),
    decreases (b.depth + 1 - lv) as nat, 3nat, 0nat,
{
    let here = if has_root(roots, window_lo(a, b), window_hi(a, b)) && s.len() >= b.node {
        seq![(a, s)]
    } else {
        Seq::<Found>::empty()
    };
    let w = walk(e, roots, b, a, lv, s);
    if lv <= b.depth {
        let k = walk_keys(e, roots, b, a, lv, s, 0);
        lemma_keys_found(fwd, e, roots, b, t, a, lv, s, 0);
        assert(w == here + k);
        assert forall|j: int| 0 <= j < w.len() implies found_ok(fwd, e, roots, b, t, a, s, #[trigger] w[j]) by {
            if j >= here.len() {
                assert(w[j] == k[j - here.len()]);
            }
        }
    }
}

pub proof fn lemma_keys_found(
    fwd: Map<u64, u64>,
    e: Seq<(u64, Seq<u64>)>,
    roots: Seq<u64>,
    b: Bounds,
    t: u64,
    a: u64,
    lv: nat,
    s: Seq<Link>,
    i: nat,
)
    requires
        lv >= 1,
        s.len() == lv - 1,
        lv <= b.depth + 1,
    ensures
        forall|j: int| 0 <= j < walk_keys(e, roots, b, a, lv, s, i).len()
            ==> found_ok(fwd, e, roots, b, t, a, s, #[trigger] walk_keys(e, roots, b, a, lv, s, i)[j]),
    decreases (b.depth + 1 - lv) as nat, 2nat, (e.len() - i) as nat,
{
    if lv <= b.depth && i < e.len() {
        let rest = walk_keys(e, roots, b, a, lv, s, i + 1);
        lemma_keys_found(fwd, e, roots, b, t, a, lv, s, i + 1);
        let w = walk_keys(e, roots, b, a, lv, s, i);
        if window_lo(a, b) <= e[i as int].0 <= window_hi(a, b) {
            let s2 = s.push(link_to(a, e[i as int].0));
            let l = walk_locs(e, roots, b, lv, s2, e[i as int].1, 0);
            lemma_locs_found(fwd, e, roots, b, t, a, lv, s, i as int, 0);
            assert(w == l + rest);
            assert forall|j: int| 0 <= j < w.len() implies found_ok(fwd, e, roots, b, t, a, s, #[trigger] w[j]) by {
                if j < l.len() {
                    assert(w[j] == l[j]);
                } else {
                    assert(w[j] == rest[j - l.len()]);
                }
            }
        } else {
            assert(w == rest);
        }
    }
}

pub proof fn lemma_locs_found(
    fwd: Map<u64, u64>,
    e: Seq<(u64, Seq<u64>)>,
    roots: Seq<u64>,
    b: Bounds,
    t: u64,
    a: u64,
    lv: nat,
    s: Seq<Link>,
    i: int,
    j: nat,
)
    requires
        lv >= 1,
        s.len() == lv - 1,
        lv <= b.depth,
        0 <= i < e.len(),
        window_lo(a, b) <= e[i].0 <= window_hi(a, b),
    ensures
        forall|q: int| 0 <= q < walk_locs(e, roots, b, lv, s.push(link_to(a, e[i].0)), e[i].1, j).len()
            ==> found_ok(
                fwd,
                e,
                roots,
                b,
                t,
                a,
                s,
                #[trigger] walk_locs(e, roots, b, lv, s.push(link_to(a, e[i].0)), e[i].1, j)[q],
            ),
    decreases (b.depth + 1 - lv) as nat, 1nat, (e[i].1.len() - j) as nat,
{
    let s2 = s.push(link_to(a, e[i].0));
    let locs = e[i].1;
    if j < locs.len() {
        let loc = locs[j as int];
        lemma_walk_found(fwd, e, roots, b, t, loc, lv + 1, s2);
        lemma_locs_found(fwd, e, roots, b, t, a, lv, s, i, j + 1);
        let sub = walk(e, roots, b, loc, lv + 1, s2);
        let rest = walk_locs(e, roots, b, lv, s2, locs, j + 1);
        let w = walk_locs(e, roots, b, lv, s2, locs, j);
        assert(w == sub + rest);
        if rev_sound(fwd, e) && resolve(fwd, a, s) == Some(t) {
            assert(fwd.contains_key(e[i].1[j as int]) && fwd[e[i].1[j as int]] == e[i].0);
            lemma_link_back(a, e[i].0);
            assert(s2.drop_last() =~= s);
            assert(resolve(fwd, loc, s2) == resolve(fwd, a, s));
        }
        if b.above == 0 && b.below == 0 && reachable(e, t, a, s.len()) {
            assert(e[i].0 == a);
            assert(e[i].1[j as int] == loc);
            assert(exact_step(e, a, loc));
            assert(((s2.len() - 1) as nat) == s.len());
            let n1 = (s2.len() - 1) as nat;
            assert(reachable(e, t, a, n1) && exact_step(e, a, loc));
            lemma_reachable_step(e, t, a, loc, n1);
            assert(s2.len() == n1 + 1);
            assert(reachable(e, t, loc, s2.len()));
        }
        if b.above == 0 && b.below == 0 && zero_offsets(s) {
            assert(e[i].0 == a);
            let z = a.wrapping_sub(a);
            assert(z == 0);
            assert((z as i64) == 0) by (bit_vector)
                requires
                    z == 0,
            ;
            assert forall|q: int| 0 <= q < s2.len() implies (#[trigger] s2[q]).1 == 0 by {
                if q < s.len() {
                    assert(s2[q] == s[q]);
                }
            }
        }
        assert forall|q: int| 0 <= q < w.len() implies found_ok(fwd, e, roots, b, t, a, s, #[trigger] w[q]) by {
            if q < sub.len() {
                assert(w[q] == sub[q]);
                assert(found_ok(fwd, e, roots, b, t, loc, s2, sub[q]));
            } else {
                assert(w[q] == rest[q - sub.len()]);
            }
        }
    }
}

/// No chain found has more links than the depth, nor fewer than the minimum.
pub proof fn law_chain_length(e: Seq<(u64, Seq<u64>)>, roots: Seq<u64>, b: Bounds, target: u64)
    ensures
        forall|j: int| 0 <= j < walk(e, roots, b, target, 1, Seq::empty()).len() ==> {
            let x = #[trigger] walk(e, roots, b, target, 1, Seq::empty())[j];
            b.node <= x.1.len() <= b.depth
        },
{
    lemma_walk_found(Map::empty(), e, roots, b, target, target, 1, Seq::empty());
}

/// With the minimum length equal to the depth, every chain found has exactly
/// that many links.
pub proof fn law_node_equals_depth(e: Seq<(u64, Seq<u64>)>, roots: Seq<u64>, b: Bounds, target: u64)
    requires
        b.node == b.depth,
    ensures
        forall|j: int| 0 <= j < walk(e, roots, b, target, 1, Seq::empty()).len()
            ==> (#[trigger] walk(e, roots, b, target, 1, Seq::empty())[j]).1.len() == b.depth,
{
    law_chain_length(e, roots, b, target);
}

/// With depth zero the search reports at most the target itself, and does so
/// exactly when a root lies in its window and no minimum length is asked for.
pub proof fn law_depth_zero(e: Seq<(u64, Seq<u64>)>, roots: Seq<u64>, b: Bounds, target: u64)
    requires
        b.depth == 0,
    ensures
        walk(e, roots, b, target, 1, Seq::empty()) == (if has_root(roots, window_lo(target, b), window_hi(target, b))
            && b.node == 0 {
            seq![(target, Seq::<Link>::empty())]
        } else {
            Seq::<Found>::empty()
        }),
        walk(e, roots, b, target, 1, Seq::empty()).len() <= 1,
{
}

/// With an empty window every chain starts exactly at a root and every offset
/// in it is zero; and when the target is no root and no pointer holds it,
/// nothing is found.
pub proof fn law_exact_window(e: Seq<(u64, Seq<u64>)>, roots: Seq<u64>, b: Bounds, target: u64)
    requires
        b.above == 0,
        b.below == 0,
    ensures
        forall|j: int| 0 <= j < walk(e, roots, b, target, 1, Seq::empty()).len()
            ==> roots.contains((#[trigger] walk(e, roots, b, target, 1, Seq::empty())[j]).0),
        forall|j: int| 0 <= j < walk(e, roots, b, target, 1, Seq::empty()).len()
            ==> zero_offsets((#[trigger] walk(e, roots, b, target, 1, Seq::empty())[j]).1),
        (!roots.contains(target) && forall|i: int| 0 <= i < e.len() ==> (#[trigger] e[i]).0 != target)
            ==> walk(e, roots, b, target, 1, Seq::empty()).len() == 0,
{
    let w = walk(e, roots, b, target, 1, Seq::empty());
    lemma_walk_found(Map::empty(), e, roots, b, target, target, 1, Seq::empty());
    assert(zero_offsets(Seq::<Link>::empty()));
    assert forall|j: int| 0 <= j < w.len() implies roots.contains((#[trigger] w[j]).0) by {
        let x = w[j];
        let i = choose|i: int| 0 <= i < roots.len() && window_lo(x.0, b) <= #[trigger] roots[i] <= window_hi(x.0, b);
        assert(roots[i] == x.0);
    }
    if !roots.contains(target) && forall|i: int| 0 <= i < e.len() ==> (#[trigger] e[i]).0 != target {
        if has_root(roots, window_lo(target, b), window_hi(target, b)) {
            let i = choose|i: int| 0 <= i < roots.len() && window_lo(target, b) <= #[trigger] roots[i] <= window_hi(target, b);
            assert(roots[i] == target);
        }
        if b.depth >= 1 {
            lemma_keys_none(e, roots, b, target, 0);
        }
    }
}

proof fn lemma_keys_none(e: Seq<(u64, Seq<u64>)>, roots: Seq<u64>, b: Bounds, target: u64, i: nat)
    requires
        b.above == 0,
        b.below == 0,
        forall|t: int| 0 <= t < e.len() ==> (#[trigger] e[t]).0 != target,
    ensures
        walk_keys(e, roots, b, target, 1, Seq::empty(), i).len() == 0,
    decreases e.len() - i,
{
    if 1 <= b.depth && i < e.len() {
        lemma_keys_none(e, roots, b, target, i + 1);
        assert(e[i as int].0 != target);
    }
}

/// The reverse index of a well-formed scanner lists each location under the
/// value it holds.
pub proof fn lemma_scanner_sound(s: PtrsxScanner)
    requires
        s.wf(),
    ensures
        rev_sound(s.forward_map(), s.reverse_entries()),
{
    s.lemma_reverse_wf();
    let fwd = s.forward_map();
    let e = s.reverse_entries();
    let f = sorted_entries_of(fwd);
    let sk = sorted_keys(fwd);
    assert forall|i: int, j: int| 0 <= i < e.len() && 0 <= j < e[i].1.len() implies fwd.contains_key(
        #[trigger] e[i].1[j],
    ) && fwd[e[i].1[j]] == e[i].0 by {
        let v = e[i].0;
        lemma_map_of_at(e, i);
        assert(reverse_of(f)[v] == locs_of(f, v));
        lemma_locs_of_hold(f, v, j);
        let t = choose|t: int| 0 <= t < f.len() && f[t] == (locs_of(f, v)[j], v);
        assert(f[t] == (sk[t], fwd[sk[t]]));
        assert(sk.contains(sk[t]));
    }
}

/// Each chain a scanner finds leads back to the target: from its head, reading
/// the forward map and adding the offsets, outermost first, arrives at
/// `target` exactly, whatever the window.
pub proof fn law_chains_resolve(s: PtrsxScanner, roots: Seq<u64>, b: Bounds, target: u64)
    requires
        s.wf(),
    ensures
        forall|j: int| 0 <= j < walk(s.reverse_entries(), roots, b, target, 1, Seq::empty()).len() ==> resolve(
            s.forward_map(),
            (#[trigger] walk(s.reverse_entries(), roots, b, target, 1, Seq::empty())[j]).0,
            walk(s.reverse_entries(), roots, b, target, 1, Seq::empty())[j].1,
        ) == Some(target),
{
    lemma_scanner_sound(s);
    lemma_walk_found(s.forward_map(), s.reverse_entries(), roots, b, target, target, 1, Seq::empty());
}

/// Two searches over the same indexes with the same parameters write the same
/// bytes.
pub proof fn law_deterministic(s1: PtrsxScanner, s2: PtrsxScanner, p: UserParam, out1: Seq<u8>, out2: Seq<u8>)
    requires
        s1.forward_map() == s2.forward_map(),
        s1.reverse_entries() == s2.reverse_entries(),
        s1.modules() == s2.modules(),
        out1 == scan_output(
            s1.reverse_entries(),
            module_roots(s1.forward_map(), s1.modules()),
            user_bounds(p),
            user_emit(p),
            s1.modules(),
            p.addr,
        ),
        out2 == scan_output(
            s2.reverse_entries(),
            module_roots(s2.forward_map(), s2.modules()),
            user_bounds(p),
            user_emit(p),
            s2.modules(),
            p.addr,
        ),
    ensures
        out1 == out2,
{
}

proof fn lemma_insert_sorted(acc: Map<u64, u64>, s: Seq<(u64, u64)>)
    requires
        forall|a: int, b: int| 0 <= a < b < s.len() ==> s[a].0 < s[b].0,
    ensures
        forall|k: u64| #[trigger] insert_all(acc, s).contains_key(k) <==> acc.contains_key(k) || exists|i: int|
            0 <= i < s.len() && s[i].0 == k,
        forall|i: int| 0 <= i < s.len() ==> #[trigger] insert_all(acc, s)[s[i].0] == s[i].1,
        forall|k: u64| acc.contains_key(k) && (forall|i: int| 0 <= i < s.len() ==> s[i].0 != k)
            ==> #[trigger] insert_all(acc, s)[k] == acc[k],
    decreases s.len(),
{
    if s.len() > 0 {
        let acc2 = acc.insert(s[0].0, s[0].1);
        let rest = s.drop_first();
        lemma_insert_sorted(acc2, rest);
        let m = insert_all(acc, s);
        assert(m == insert_all(acc2, rest));
        assert forall|k: u64| #[trigger] m.contains_key(k) <==> acc.contains_key(k) || exists|i: int|
            0 <= i < s.len() && s[i].0 == k by {
            if exists|i: int| 0 <= i < rest.len() && rest[i].0 == k {
                let i = choose|i: int| 0 <= i < rest.len() && rest[i].0 == k;
                assert(s[i + 1].0 == k);
            }
            if exists|i: int| 0 <= i < s.len() && s[i].0 == k {
                let i = choose|i: int| 0 <= i < s.len() && s[i].0 == k;
                if i > 0 {
                    assert(rest[i - 1].0 == k);
                }
            }
        }
        assert forall|i: int| 0 <= i < s.len() implies #[trigger] m[s[i].0] == s[i].1 by {
            if i > 0 {
                assert(rest[i - 1] == s[i]);
            } else {
                assert forall|q: int| 0 <= q < rest.len() implies rest[q].0 != s[0].0 by {
                    assert(s[0].0 < s[q + 1].0);
                }
            }
        }
        assert forall|k: u64| acc.contains_key(k) && (forall|i: int| 0 <= i < s.len() ==> s[i].0 != k) implies #[trigger] m[k]
            == acc[k] by {
            assert forall|q: int| 0 <= q < rest.len() implies rest[q].0 != k by {
                assert(rest[q] == s[q + 1]);
            }
            assert(s[0].0 != k);
        }
    }
}

/// Saving a forward map and loading the file into an empty map gives the
/// map back.
pub proof fn law_pairs_round_trip(m: Map<u64, u64>)
    requires
        lists(sorted_keys(m), m.dom()),
    ensures
        insert_all(Map::empty(), decode_pairs(pairs_bytes(sorted_entries_of(m)))) == m,
{
    let s = sorted_entries_of(m);
    let sk = sorted_keys(m);
    lemma_decode_pairs_bytes(s);
    lemma_insert_sorted(Map::empty(), s);
    let r = insert_all(Map::<u64, u64>::empty(), s);
    assert forall|k: u64| #[trigger] r.contains_key(k) <==> m.contains_key(k) by {
        if m.contains_key(k) {
            assert(sk.contains(k));
            let i = choose|i: int| 0 <= i < sk.len() && sk[i] == k;
            assert(s[i].0 == k);
        }
        if r.contains_key(k) {
            let i = choose|i: int| 0 <= i < s.len() && s[i].0 == k;
            assert(sk.contains(sk[i]));
        }
    }
    assert forall|k: u64| #[trigger] r.contains_key(k) implies r[k] == m[k] by {
        let i = choose|i: int| 0 <= i < s.len() && s[i].0 == k;
        assert(r[s[i].0] == s[i].1);
    }
    assert(r =~= m);
}

/// In aligned mode, over regions that start at multiples of eight, every
/// location the builder reports is a multiple of eight.
pub proof fn law_aligned_locations(r: Seq<(u64, u64)>, p: (u64, u64))
    requires
        forall|i: int| 0 <= i < r.len() ==> (#[trigger] r[i]).0 % 8 == 0,
        crate::builder::pair_ok(r, true, p),
    ensures
        p.0 % 8 == 0,
{
    let i = choose|i: int| #[trigger] crate::builder::pair_in_region(r, true, p, i);
    assert(r[i].0 % 8 == 0);
}

/// With an empty window nothing is found when no address reachable from the
/// target in at most `depth` exact steps, the target included, is a root.
pub proof fn law_exact_window_unreachable(e: Seq<(u64, Seq<u64>)>, roots: Seq<u64>, b: Bounds, target: u64)
    requires
        b.above == 0,
        b.below == 0,
        forall|x: u64, n: nat| n <= b.depth && #[trigger] reachable(e, target, x, n) ==> !roots.contains(x),
    ensures
        walk(e, roots, b, target, 1, Seq::empty()).len() == 0,
{
    let w = walk(e, roots, b, target, 1, Seq::empty());
    law_exact_window(e, roots, b, target);
    lemma_walk_found(Map::empty(), e, roots, b, target, target, 1, Seq::empty());
    assert(reachable(e, target, target, 0));
    if w.len() > 0 {
        let x = w[0];
        assert(reachable(e, target, x.0, x.1.len()));
        lemma_reachable_mono(e, target, x.0, x.1.len(), b.depth as nat);
        assert(roots.contains(x.0));
    }
}

/// With depth zero an absolute search writes at most one line: the target's
/// distance from the base, written exactly when a root lies in the target's
/// window and no minimum length is asked for.
pub proof fn law_depth_zero_output(
    e: Seq<(u64, Seq<u64>)>,
    roots: Seq<u64>,
    b: Bounds,
    base: u64,
    ms: Seq<crate::index::ModuleView>,
    target: u64,
)
    requires
        b.depth == 0,
    ensures
        scan_output(e, roots, b, Emit { head: crate::scan::Head::Absolute(base), last: None, max: None }, ms, target)
            == (if has_root(roots, window_lo(target, b), window_hi(target, b)) && b.node == 0 {
            crate::num::dec_nat(target.wrapping_sub(base) as nat) + seq![10u8]
        } else {
            Seq::<u8>::empty()
        }),
{
    law_depth_zero(e, roots, b, target);
    let c = Emit { head: crate::scan::Head::Absolute(base), last: None, max: None };
    let st0: crate::scan::SinkState = (0, Seq::empty(), Seq::empty());
    let w = walk(e, roots, b, target, 1, Seq::empty());
    let d = crate::num::dec_nat(target.wrapping_sub(base) as nat);
    if w.len() > 0 {
        assert(w.drop_last() =~= Seq::<Found>::empty());
        assert(crate::scan::feed_all(c, ms, st0, w.drop_last()) == st0);
        assert(crate::scan::at_text(Seq::<Link>::empty()) == Seq::<u8>::empty());
        let l = d + crate::scan::at_text(Seq::<Link>::empty()) + seq![10u8];
        assert(crate::scan::line_of(c.head, ms, target, Seq::<Link>::empty()) == Some(l));
        assert(crate::scan::feed(c, ms, st0, w.last()) == (0nat, Seq::<u8>::empty() + l, Seq::<Found>::empty()));
        assert(Seq::<u8>::empty() + l =~= d + seq![10u8]);
    } else {
        assert(crate::scan::feed_all(c, ms, st0, w) == st0);
    }
}

/// Two absolute searches over equal indexes with equal parameters write the
/// same bytes.
pub proof fn law_walk_deterministic(
    m1: crate::index::ReverseIndex,
    m2: crate::index::ReverseIndex,
    p: crate::scan::WalkParams,
    out1: Seq<u8>,
    out2: Seq<u8>,
)
    requires
        m1@ == m2@,
        out1 == scan_output(
            m1@,
            p.points@,
            crate::scan::walk_bounds(p),
            Emit { head: crate::scan::Head::Absolute(p.base), last: None, max: None },
            Seq::empty(),
            p.target,
        ),
        out2 == scan_output(
            m2@,
            p.points@,
            crate::scan::walk_bounds(p),
            Emit { head: crate::scan::Head::Absolute(p.base), last: None, max: None },
            Seq::empty(),
            p.target,
        ),
    ensures
        out1 == out2,
{
}

} // verus!
