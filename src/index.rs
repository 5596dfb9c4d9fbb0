//! Searchable indexes over a pointer map.

use std::collections::BTreeMap;
use vstd::std_specs::btree::{increasing_seq, spec_btree_map_iter};
use vstd::std_specs::iter::IteratorSpec;
use vstd::std_specs::cmp::OrdSpec;
use vstd::prelude::*;

verus! {

broadcast use {vstd::std_specs::btree::group_btree_axioms, vstd::laws_cmp::group_laws_cmp};

/// Keys strictly ascending.
pub open spec fn ascending(s: Seq<u64>) -> bool {
    forall|i: int, j: int| 0 <= i < j < s.len() ==> s[i] < s[j]
}

/// Values in non-decreasing order.
pub open spec fn sorted(s: Seq<u64>) -> bool {
    forall|i: int, j: int| 0 <= i <= j < s.len() ==> s[i] <= s[j]
}

/// The reverse index: each pointer value with the locations that hold it, in
/// ascending order of value.
pub struct ReverseIndex {
    keys: Vec<u64>,
    buckets: Vec<Vec<u64>>,
}

impl View for ReverseIndex {
    type V = Seq<(u64, Seq<u64>)>;

    closed spec fn view(&self) -> Seq<(u64, Seq<u64>)> {
        Seq::new(self.keys@.len(), |i: int| (self.keys@[i], self.buckets@[i]@))
    }
}

/// An index's entries as a map from value to locations.
pub open spec fn map_of(e: Seq<(u64, Seq<u64>)>) -> Map<u64, Seq<u64>> {
    Map::new(
        |k: u64| exists|i: int| 0 <= i < e.len() && e[i].0 == k,
        |k: u64| e[choose|i: int| 0 <= i < e.len() && e[i].0 == k].1,
    )
}

impl ReverseIndex {
    pub closed spec fn wf(&self) -> bool {
        &&& self.keys@.len() == self.buckets@.len()
        &&& ascending(self.keys@)
    }

    /// An empty index.
    pub fn new() -> (r: Self)
        ensures
            r.wf(),
            r@ == Seq::<(u64, Seq<u64>)>::empty(),
    {
        let r = ReverseIndex { keys: Vec::new(), buckets: Vec::new() };
        assert(r@ =~= Seq::<(u64, Seq<u64>)>::empty());
        r
    }

    pub proof fn lemma_ascending(&self)
        requires
            self.wf(),
        ensures
            forall|i: int, j: int| 0 <= i < j < self@.len() ==> self@[i].0 < self@[j].0,
    {
    }

    /// Number of distinct values.
    pub fn len(&self) -> (r: usize)
        requires
            self.wf(),
        ensures
            r == self@.len(),
    {
        self.keys.len()
    }

    pub fn key(&self, i: usize) -> (r: u64)
        requires
            self.wf(),
            i < self@.len(),
        ensures
            r == self@[i as int].0,
    {
        self.keys[i]
    }

    pub fn bucket(&self, i: usize) -> (r: &Vec<u64>)
        requires
            self.wf(),
            i < self@.len(),
        ensures
            r@ == self@[i as int].1,
    {
        &self.buckets[i]
    }

    /// First position whose value is at least `lo`, or the length when none is.
    pub fn lower_bound(&self, lo: u64) -> (r: usize)
        requires
            self.wf(),
        ensures
            r <= self@.len(),
            forall|i: int| 0 <= i < r ==> self@[i].0 < lo,
            forall|i: int| r <= i < self@.len() ==> self@[i].0 >= lo,
    {
        let mut a: usize = 0;
        let mut b: usize = self.keys.len();
        while a < b
            invariant
                self.wf(),
                a <= b <= self.keys@.len(),
                forall|i: int| 0 <= i < a ==> self.keys@[i] < lo,
                forall|i: int| b <= i < self.keys@.len() ==> self.keys@[i] >= lo,
            decreases b - a,
        {
            let m = a + (b - a) / 2;
            if self.keys[m] < lo {
                a = m + 1;
            } else {
                b = m;
            }
        }
        a
    }

}

/// The locations that hold `v`, in the order of the entries.
pub open spec fn locs_of(f: Seq<(u64, u64)>, v: u64) -> Seq<u64>
    decreases f.len(),
{
    if f.len() == 0 {
        Seq::empty()
    } else {
        let p = locs_of(f.drop_last(), v);
        if f.last().1 == v {
            p.push(f.last().0)
        } else {
            p
        }
    }
}

/// The reverse of a list of (location, value) entries: each value that occurs,
/// with the locations that hold it.
pub open spec fn reverse_of(f: Seq<(u64, u64)>) -> Map<u64, Seq<u64>> {
    Map::new(|v: u64| exists|j: int| 0 <= j < f.len() && f[j].1 == v, |v: u64| locs_of(f, v))
}

/// Where keys ascend, the map of an index gives each entry's locations.
pub proof fn lemma_map_of_at(e: Seq<(u64, Seq<u64>)>, i: int)
    requires
        0 <= i < e.len(),
        forall|a: int, b: int| 0 <= a < b < e.len() ==> e[a].0 < e[b].0,
    ensures
        map_of(e).contains_key(e[i].0),
        map_of(e)[e[i].0] == e[i].1,
{
    let k = e[i].0;
    let c = choose|c: int| 0 <= c < e.len() && e[c].0 == k;
    if c < i {
        assert(e[c].0 < e[i].0);
    } else if i < c {
        assert(e[i].0 < e[c].0);
    }
}

/// Each location listed for `v` is an entry holding `v`.
pub proof fn lemma_locs_of_hold(f: Seq<(u64, u64)>, v: u64, j: int)
    requires
        0 <= j < locs_of(f, v).len(),
    ensures
        exists|i: int| 0 <= i < f.len() && f[i] == (locs_of(f, v)[j], v),
    decreases f.len(),
{
    let p = locs_of(f.drop_last(), v);
    if f.last().1 == v && j == p.len() {
        assert(f[f.len() - 1] == (locs_of(f, v)[j], v));
    } else {
        lemma_locs_of_hold(f.drop_last(), v, j);
        let i = choose|i: int| 0 <= i < f.drop_last().len() && f.drop_last()[i] == (p[j], v);
        assert(f[i] == (locs_of(f, v)[j], v));
    }
}

impl ReverseIndex {
    /// The index of a map from value to locations, taken in ascending order of value.
    pub fn from_map(m: &BTreeMap<u64, Vec<u64>>) -> (r: Self)
        ensures
            r.wf(),
            map_of(r@) == m@.map_values(|v: Vec<u64>| v@),
    {
        let mut keys: Vec<u64> = Vec::new();
        let mut buckets: Vec<Vec<u64>> = Vec::new();
        for (k, v) in it: m.iter()
            invariant
                keys@.len() == buckets@.len(),
                keys@.len() == it.index(),
                it.seq() == spec_btree_map_iter(m).remaining(),
                forall|i: int| 0 <= i < keys@.len() ==> keys@[i] == *it.seq()[i].0,
                forall|i: int| 0 <= i < keys@.len() ==> #[trigger] buckets@[i]@ == it.seq()[i].1@,
        {
            let b = v.clone();
            assert(b@ =~= v@);
            keys.push(*k);
            buckets.push(b);
        }
        let r = ReverseIndex { keys, buckets };
        proof {
            let s = spec_btree_map_iter(m).remaining();
            let ks = s.map_values(|kv: (&u64, &Vec<u64>)| *kv.0);
            assert(ks =~= r.keys@);
            assert(increasing_seq(ks));
            assert forall|i: int, j: int| 0 <= i < j < ks.len() implies ks[i] < ks[j] by {
                assert(ks[i].cmp_spec(&ks[j]) is Less);
            }
            let want = m@.map_values(|v: Vec<u64>| v@);
            assert forall|k: u64| #[trigger] map_of(r@).contains_key(k) <==> want.contains_key(k) by {
                if want.contains_key(k) {
                    assert(s.contains((&k, &m@[k])));
                    let i = choose|i: int| 0 <= i < s.len() && s[i] == (&k, &m@[k]);
                    assert(r@[i].0 == k);
                }
                if map_of(r@).contains_key(k) {
                    let i = choose|i: int| 0 <= i < r@.len() && r@[i].0 == k;
                    assert(m@.contains_key(*s[i].0));
                }
            }
            assert forall|k: u64| #[trigger] map_of(r@).contains_key(k) implies map_of(r@)[k] == want[k] by {
                let i = choose|i: int| 0 <= i < r@.len() && r@[i].0 == k;
                assert(m@.contains_key(*s[i].0) && m@[*s[i].0] == *s[i].1);
                assert forall|i2: int| 0 <= i2 < r@.len() && r@[i2].0 == k implies i2 == i by {
                    if i2 < i { assert(ks[i2] < ks[i]); } else if i < i2 { assert(ks[i] < ks[i2]); }
                }
            }
            assert(map_of(r@) =~= want);
        }
        r
    }
}

impl ReverseIndex {
    /// The reverse of a list of (location, value) entries.
    pub fn from_entries(f: &Vec<(u64, u64)>) -> (r: Self)
        ensures
            r.wf(),
            map_of(r@) == reverse_of(f@),
    {
        let mut acc: BTreeMap<u64, Vec<u64>> = BTreeMap::new();
        let mut n: usize = 0;
        while n < f.len()
            invariant
                n <= f@.len(),
                acc@.map_values(|v: Vec<u64>| v@) == reverse_of(f@.subrange(0, n as int)),
            decreases f@.len() - n,
        {
            let (k, v) = f[n];
            let ghost pre = f@.subrange(0, n as int);
            let ghost post = f@.subrange(0, n + 1);
            assert(post.drop_last() =~= pre);
            let ghost before = acc@;
            let b = match acc.remove(&v) {
                Some(mut b) => {
                    b.push(k);
                    b
                },
                None => {
                    let mut b: Vec<u64> = Vec::new();
                    b.push(k);
                    b
                },
            };
            acc.insert(v, b);
            proof {
                let want = reverse_of(post);
                let got = acc@.map_values(|x: Vec<u64>| x@);
                assert forall|w: u64| #[trigger] got.contains_key(w) <==> want.contains_key(w) by {
                    if w != v && got.contains_key(w) {
                        assert(reverse_of(pre).contains_key(w));
                        let j = choose|j: int| 0 <= j < pre.len() && pre[j].1 == w;
                        assert(post[j] == pre[j]);
                    }
                    if w != v && want.contains_key(w) {
                        let j = choose|j: int| 0 <= j < post.len() && post[j].1 == w;
                        assert(pre[j] == post[j]);
                        assert(reverse_of(pre).contains_key(w));
                    }
                    if w == v {
                        assert(post[n as int].1 == w);
                    }
                }
                assert forall|w: u64| #[trigger] got.contains_key(w) implies got[w] == want[w] by {
                    assert(post.last() == (k, v));
                    assert(locs_of(post, w) == if w == v { locs_of(pre, w).push(k) } else { locs_of(pre, w) });
                    if w != v {
                        assert(before.contains_key(w));
                        assert(got[w] == before[w]@);
                        assert(reverse_of(pre)[w] == before[w]@);
                    }
                    if w == v {
                        if before.contains_key(v) {
                            assert(reverse_of(pre)[v] == before[v]@);
                        }
                        if !before.contains_key(v) {
                            assert(locs_of(pre, v) =~= Seq::<u64>::empty()) by {
                                if locs_of(pre, v).len() > 0 {
                                    lemma_locs_of_hold(pre, v, 0);
                                    assert(reverse_of(pre).contains_key(v));
                                }
                            }
                        }
                    }
                }
                assert(got =~= want);
            }
            n = n + 1;
        }
        assert(f@.subrange(0, f@.len() as int) =~= f@);
        Self::from_map(&acc)
    }
}

pub open spec fn entry_keys(e: Seq<(u64, u64)>) -> Seq<u64> {
    e.map_values(|x: (u64, u64)| x.0)
}

fn sorted_entries_raw(m: &BTreeMap<u64, u64>) -> (r: Vec<(u64, u64)>)
    ensures
        ascending(entry_keys(r@)),
        forall|i: int| 0 <= i < r@.len() ==> #[trigger] m@.contains_key(r@[i].0) && m@[r@[i].0] == r@[i].1,
        forall|k: u64| #[trigger] m@.contains_key(k) ==> exists|i: int| 0 <= i < r@.len() && r@[i] == (k, m@[k]),
{
    let mut r: Vec<(u64, u64)> = Vec::new();
    for (k, v) in it: m.iter()
        invariant
            r@.len() == it.index(),
            it.seq() == spec_btree_map_iter(m).remaining(),
            forall|i: int| 0 <= i < r@.len() ==> r@[i] == (*it.seq()[i].0, *it.seq()[i].1),
    {
        r.push((*k, *v));
    }
    proof {
        let s = spec_btree_map_iter(m).remaining();
        let ks = s.map_values(|kv: (&u64, &u64)| *kv.0);
        assert(ks =~= entry_keys(r@));
        assert forall|k: u64| #[trigger] m@.contains_key(k) implies exists|i: int| 0 <= i < r@.len() && r@[i] == (k, m@[k]) by {
            assert(s.contains((&k, &m@[k])));
            let i = choose|i: int| 0 <= i < s.len() && s[i] == (&k, &m@[k]);
            assert(r@[i] == (k, m@[k]));
        }
        assert(increasing_seq(ks));
        assert forall|i: int, j: int| 0 <= i < j < ks.len() implies ks[i] < ks[j] by {
            assert(ks[i].cmp_spec(&ks[j]) is Less);
        }
    }
    r
}

/// `s` lists the members of `set` in ascending order.
pub open spec fn lists(s: Seq<u64>, set: Set<u64>) -> bool {
    &&& ascending(s)
    &&& forall|x: u64| s.contains(x) <==> set.contains(x)
}

/// Only one sequence lists a set in ascending order.
pub proof fn lemma_lists_unique(s1: Seq<u64>, s2: Seq<u64>, set: Set<u64>)
    requires
        lists(s1, set),
        lists(s2, set),
    ensures
        s1 == s2,
    decreases s1.len(),
{
    if s1.len() == 0 {
        if s2.len() > 0 {
            assert(s2.contains(s2[0]));
        }
        assert(s1 =~= s2);
    } else {
        assert(s1.contains(s1[0]));
        assert(s2.len() > 0);
        assert(s2.contains(s2[0]));
        let a = s1[0];
        let b = s2[0];
        let ia = choose|j: int| 0 <= j < s2.len() && s2[j] == a;
        let ib = choose|j: int| 0 <= j < s1.len() && s1[j] == b;
        if ia > 0 {
            assert(s2[0] < s2[ia]);
        }
        if ib > 0 {
            assert(s1[0] < s1[ib]);
        }
        assert(a == b);
        let t1 = s1.drop_first();
        let t2 = s2.drop_first();
        let rest = set.remove(a);
        assert forall|x: u64| t1.contains(x) <==> rest.contains(x) by {
            if t1.contains(x) {
                let j = choose|j: int| 0 <= j < t1.len() && t1[j] == x;
                assert(s1[j + 1] == x);
                assert(s1[0] < s1[j + 1]);
                assert(s1.contains(x));
            }
            if rest.contains(x) {
                assert(s1.contains(x));
                let j = choose|j: int| 0 <= j < s1.len() && s1[j] == x;
                assert(j != 0);
                assert(t1[j - 1] == x);
            }
        }
        assert forall|x: u64| t2.contains(x) <==> rest.contains(x) by {
            if t2.contains(x) {
                let j = choose|j: int| 0 <= j < t2.len() && t2[j] == x;
                assert(s2[j + 1] == x);
                assert(s2[0] < s2[j + 1]);
                assert(s2.contains(x));
            }
            if rest.contains(x) {
                assert(s2.contains(x));
                let j = choose|j: int| 0 <= j < s2.len() && s2[j] == x;
                assert(j != 0);
                assert(t2[j - 1] == x);
            }
        }
        lemma_lists_unique(t1, t2, rest);
        assert(s1 =~= s2) by {
            assert forall|j: int| 0 <= j < s1.len() implies s1[j] == s2[j] by {
                if j > 0 {
                    assert(s1[j] == t1[j - 1]);
                    assert(s2[j] == t2[j - 1]);
                }
            }
        }
    }
}

/// The keys of a map in ascending order.
pub open spec fn sorted_keys(m: Map<u64, u64>) -> Seq<u64> {
    choose|s: Seq<u64>| lists(s, m.dom())
}

/// The entries of a map in ascending order of key.
pub open spec fn sorted_entries_of(m: Map<u64, u64>) -> Seq<(u64, u64)> {
    sorted_keys(m).map_values(|k: u64| (k, m[k]))
}

/// The ascending entries of a forward map.
pub fn sorted_entries(m: &BTreeMap<u64, u64>) -> (r: Vec<(u64, u64)>)
    ensures
        r@ == sorted_entries_of(m@),
        lists(entry_keys(r@), m@.dom()),
{
    let r = sorted_entries_raw(m);
    proof {
        let ks = entry_keys(r@);
        assert forall|x: u64| ks.contains(x) <==> m@.dom().contains(x) by {
            if ks.contains(x) {
                let j = choose|j: int| 0 <= j < ks.len() && ks[j] == x;
                assert(m@.contains_key(r@[j].0));
            }
            if m@.dom().contains(x) {
                let j = choose|j: int| 0 <= j < r@.len() && r@[j] == (x, m@[x]);
                assert(ks[j] == x);
            }
        }
        assert(lists(ks, m@.dom()));
        lemma_lists_unique(ks, sorted_keys(m@), m@.dom());
        assert(r@ =~= sorted_entries_of(m@)) by {
            assert forall|j: int| 0 <= j < r@.len() implies r@[j] == sorted_entries_of(m@)[j] by {
                assert(ks[j] == r@[j].0);
                assert(m@.contains_key(r@[j].0));
            }
        }
    }
    r
}

/// A named base region `[start, end)`.
pub struct Module {
    pub start: u64,
    pub end: u64,
    pub name: Vec<u8>,
}

/// A module as plain values: start, end and name.
pub type ModuleView = (u64, u64, Seq<u8>);

impl View for Module {
    type V = ModuleView;

    open spec fn view(&self) -> ModuleView {
        (self.start, self.end, self.name@)
    }
}

/// Position of the module that owns `a`: the last one listed whose range holds it.
pub open spec fn module_at(ms: Seq<ModuleView>, a: u64) -> Option<int>
    decreases ms.len(),
{
    if ms.len() == 0 {
        None
    } else if ms.last().0 <= a < ms.last().1 {
        Some(ms.len() - 1)
    } else {
        module_at(ms.drop_last(), a)
    }
}

pub proof fn lemma_module_at_bounds(ms: Seq<ModuleView>, a: u64)
    ensures
        module_at(ms, a) matches Some(i) ==> 0 <= i < ms.len() && ms[i].0 <= a < ms[i].1,
    decreases ms.len(),
{
    if ms.len() > 0 {
        lemma_module_at_bounds(ms.drop_last(), a);
    }
}

/// The module list: later entries take precedence where ranges overlap.
pub struct ModuleIndex {
    modules: Vec<Module>,
}

impl View for ModuleIndex {
    type V = Seq<ModuleView>;

    closed spec fn view(&self) -> Seq<ModuleView> {
        self.modules@.map_values(|m: Module| m@)
    }
}

impl ModuleIndex {
    pub fn new() -> (r: Self)
        ensures
            r@ == Seq::<ModuleView>::empty(),
    {
        let r = ModuleIndex { modules: Vec::new() };
        assert(r@ =~= Seq::<ModuleView>::empty());
        r
    }

    pub fn len(&self) -> (r: usize)
        ensures
            r == self@.len(),
    {
        self.modules.len()
    }

    pub fn get(&self, i: usize) -> (r: &Module)
        requires
            i < self@.len(),
        ensures
            r@ == self@[i as int],
    {
        &self.modules[i]
    }

    pub fn push(&mut self, m: Module)
        ensures
            final(self)@ == old(self)@.push(m@),
    {
        self.modules.push(m);
        assert(final(self)@ =~= old(self)@.push(m@));
    }

    /// Adds modules at the end, in order.
    pub fn extend(&mut self, ms: Vec<Module>)
        ensures
            final(self)@ == old(self)@ + ms@.map_values(|m: Module| m@),
    {
        let ghost added = ms@;
        let mut ms = ms;
        self.modules.append(&mut ms);
        assert(self@ =~= old(self)@ + added.map_values(|m: Module| m@));
    }

    pub fn clear(&mut self)
        ensures
            final(self)@ == Seq::<ModuleView>::empty(),
    {
        self.modules.clear();
        assert(final(self)@ =~= Seq::<ModuleView>::empty());
    }

    /// The module that owns `a`, if any.
    pub fn lookup(&self, a: u64) -> (r: Option<usize>)
        ensures
            r matches Some(i) ==> module_at(self@, a) == Some(i as int),
            r is None ==> module_at(self@, a) is None,
    {
        let mut n: usize = self.modules.len();
        assert(self@.subrange(0, n as int) =~= self@);
        while n > 0
            invariant
                n <= self@.len(),
                self@.len() == self.modules@.len(),
                module_at(self@, a) == module_at(self@.subrange(0, n as int), a),
            decreases n,
        {
            let ghost pre = self@.subrange(0, n as int);
            let m = &self.modules[n - 1];
            assert(pre.last() == m@);
            if m.start <= a && a < m.end {
                return Some(n - 1);
            }
            assert(pre.drop_last() =~= self@.subrange(0, n - 1));
            n = n - 1;
        }
        None
    }
}

} // verus!
