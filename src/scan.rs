//! The chain search: a bounded depth-first walk over the reverse index.

use arrayvec::ArrayVec;
use vstd::prelude::*;
use crate::error::Error;
use crate::index::{module_at, sorted, ModuleIndex, ModuleView, ReverseIndex};
use crate::num::{dec_int, dec_nat, decimal_i64, decimal_u64};
use crate::stack::{links_of, stack_new, stack_pop, stack_push, stack_slice, MAX_DEPTH};

verus! {

/// One link of a chain: the pointer value matched and the offset from it to the
/// address it leads to.
pub type Link = (u64, i64);

/// A chain found by the search: the address it starts from and its links,
/// innermost first.
pub type Found = (u64, Seq<Link>);

/// Limits of the search.
#[derive(Clone, Copy)]
pub struct Bounds {
    /// Longest chain, in links.
    pub depth: usize,
    /// Shortest chain that is reported.
    pub node: usize,
    /// How far above an address a matching pointer may lie.
    pub above: u64,
    /// How far below an address a matching pointer may lie.
    pub below: u64,
}

pub open spec fn window_lo(a: u64, b: Bounds) -> u64 {
    a.saturating_sub(b.below)
}

pub open spec fn window_hi(a: u64, b: Bounds) -> u64 {
    a.saturating_add(b.above)
}

/// Some root lies in `[lo, hi]`.
pub open spec fn has_root(roots: Seq<u64>, lo: u64, hi: u64) -> bool {
    exists|i: int| 0 <= i < roots.len() && lo <= #[trigger] roots[i] <= hi
}

/// The link pushed when address `a` is reached through pointer value `k`.
pub open spec fn link_to(a: u64, k: u64) -> Link {
    (k, a.wrapping_sub(k) as i64)
}

/// Every chain reported from address `a` at level `lv` with links `s` so far,
/// in the order of the walk.
pub open spec fn walk(
    e: Seq<(u64, Seq<u64>)>,
    roots: Seq<u64>,
    b: Bounds,
    a: u64,
    lv: nat,
    s: Seq<Link>,
) -> Seq<Found>
    decreases (b.depth + 1 - lv) as nat, 3nat, 0nat,
{
    let here = if has_root(roots, window_lo(a, b), window_hi(a, b)) && s.len() >= b.node {
        seq![(a, s)]
    } else {
        Seq::empty()
    };
    if lv <= b.depth {
        here + walk_keys(e, roots, b, a, lv, s, 0)
    } else {
        here
    }
}

/// The chains through the entries from position `i` on whose value lies in the
/// window of `a`.
pub open spec fn walk_keys(
    e: Seq<(u64, Seq<u64>)>,
    roots: Seq<u64>,
    b: Bounds,
    a: u64,
    lv: nat,
    s: Seq<Link>,
    i: nat,
) -> Seq<Found>
    decreases (b.depth + 1 - lv) as nat, 2nat, (e.len() - i) as nat,
{
    if lv <= b.depth && i < e.len() {
        let rest = walk_keys(e, roots, b, a, lv, s, i + 1);
        if window_lo(a, b) <= e[i as int].0 <= window_hi(a, b) {
            walk_locs(e, roots, b, lv, s.push(link_to(a, e[i as int].0)), e[i as int].1, 0) + rest
        } else {
            rest
        }
    } else {
        Seq::empty()
    }
}

/// The chains through the locations from position `j` on, each one level deeper.
pub open spec fn walk_locs(
    e: Seq<(u64, Seq<u64>)>,
    roots: Seq<u64>,
    b: Bounds,
    lv: nat,
    s: Seq<Link>,
    locs: Seq<u64>,
    j: nat,
) -> Seq<Found>
    decreases (b.depth + 1 - lv) as nat, 1nat, (locs.len() - j) as nat,
{
    if lv <= b.depth && j < locs.len() {
        walk(e, roots, b, locs[j as int], lv + 1, s) + walk_locs(e, roots, b, lv, s, locs, j + 1)
    } else {
        Seq::empty()
    }
}

/// How a chain's head is written.
#[derive(Clone, Copy)]
pub enum Head {
    /// The start address less a base, in decimal.
    Absolute(u64),
    /// The owning module's name, `+`, and the start's offset into it.
    Modules,
    /// Nothing is written: the chains are kept.
    Collect,
}

/// What is written, and how much.
#[derive(Clone, Copy)]
pub struct Emit {
    pub head: Head,
    /// Only chains whose innermost offset is this one.
    pub last: Option<i64>,
    /// At most this many lines.
    pub max: Option<usize>,
}

/// `@` and each offset, outermost first.
pub open spec fn at_text(s: Seq<Link>) -> Seq<u8>
    decreases s.len(),
{
    if s.len() == 0 {
        Seq::empty()
    } else {
        seq![64u8] + dec_int(s.last().1 as int) + at_text(s.drop_last())
    }
}

/// The line written for a chain, or none when its head has no module.
pub open spec fn line_of(h: Head, ms: Seq<ModuleView>, a: u64, s: Seq<Link>) -> Option<Seq<u8>> {
    match h {
        Head::Absolute(base) => Some(dec_nat(a.wrapping_sub(base) as nat) + at_text(s) + seq![10u8]),
        Head::Collect => None,
        Head::Modules => match module_at(ms, a) {
            Some(i) => Some(
                ms[i].2 + seq![43u8] + dec_nat((a - ms[i].0) as nat) + at_text(s) + seq![10u8],
            ),
            None => None,
        },
    }
}

pub open spec fn passes(last: Option<i64>, s: Seq<Link>) -> bool {
    match last {
        Some(o) => s.len() > 0 && s[0].1 == o,
        None => true,
    }
}

pub open spec fn is_full(max: Option<usize>, written: nat) -> bool {
    match max {
        Some(m) => written >= m,
        None => false,
    }
}

/// A sink's state: chains counted toward the limit, bytes written, chains kept.
pub type SinkState = (nat, Seq<u8>, Seq<Found>);

/// The sink's state after one more chain.
pub open spec fn feed(c: Emit, ms: Seq<ModuleView>, st: SinkState, x: Found) -> SinkState {
    if is_full(c.max, st.0) || !passes(c.last, x.1) {
        st
    } else {
        let n = if c.max is Some { st.0 + 1 } else { st.0 };
        if c.head is Collect {
            (n, st.1, st.2.push(x))
        } else {
            match line_of(c.head, ms, x.0, x.1) {
                Some(l) => (n, st.1 + l, st.2),
                None => st,
            }
        }
    }
}

/// The sink's state after a sequence of chains, in order.
pub open spec fn feed_all(c: Emit, ms: Seq<ModuleView>, st: SinkState, xs: Seq<Found>) -> SinkState
    decreases xs.len(),
{
    if xs.len() == 0 {
        st
    } else {
        feed(c, ms, feed_all(c, ms, st, xs.drop_last()), xs.last())
    }
}

/// The text a search writes from `target` with empty output at the start.
pub open spec fn scan_output(
    e: Seq<(u64, Seq<u64>)>,
    roots: Seq<u64>,
    b: Bounds,
    c: Emit,
    ms: Seq<ModuleView>,
    target: u64,
) -> Seq<u8> {
    feed_all(c, ms, (0, Seq::empty(), Seq::empty()), walk(e, roots, b, target, 1, Seq::empty())).1
}

/// The chains a collecting search keeps from `target`.
pub open spec fn scan_found(e: Seq<(u64, Seq<u64>)>, roots: Seq<u64>, b: Bounds, max: Option<usize>, target: u64) -> Seq<
    Found,
> {
    feed_all(
        Emit { head: Head::Collect, last: None, max },
        Seq::empty(),
        (0, Seq::empty(), Seq::empty()),
        walk(e, roots, b, target, 1, Seq::empty()),
    ).2
}

pub proof fn lemma_feed_all_concat(c: Emit, ms: Seq<ModuleView>, st: SinkState, xs: Seq<Found>, ys: Seq<Found>)
    ensures
        feed_all(c, ms, st, xs + ys) == feed_all(c, ms, feed_all(c, ms, st, xs), ys),
    decreases ys.len(),
{
    if ys.len() == 0 {
        assert(xs + ys =~= xs);
    } else {
        assert((xs + ys).drop_last() =~= xs + ys.drop_last());
        lemma_feed_all_concat(c, ms, st, xs, ys.drop_last());
    }
}

pub proof fn lemma_feed_all_full(c: Emit, ms: Seq<ModuleView>, st: SinkState, xs: Seq<Found>)
    requires
        is_full(c.max, st.0),
    ensures
        feed_all(c, ms, st, xs) == st,
    decreases xs.len(),
{
    if xs.len() > 0 {
        lemma_feed_all_full(c, ms, st, xs.drop_last());
    }
}

pub proof fn lemma_walk_keys_skip(
    e: Seq<(u64, Seq<u64>)>,
    roots: Seq<u64>,
    b: Bounds,
    a: u64,
    lv: nat,
    s: Seq<Link>,
    i: nat,
)
    requires
        i <= e.len(),
        forall|t: int| 0 <= t < i ==> e[t].0 < window_lo(a, b),
    ensures
        walk_keys(e, roots, b, a, lv, s, 0) == walk_keys(e, roots, b, a, lv, s, i),
    decreases i,
{
    if i > 0 {
        lemma_walk_keys_skip(e, roots, b, a, lv, s, (i - 1) as nat);
    }
}

pub proof fn lemma_walk_keys_past(
    e: Seq<(u64, Seq<u64>)>,
    roots: Seq<u64>,
    b: Bounds,
    a: u64,
    lv: nat,
    s: Seq<Link>,
    i: nat,
)
    requires
        forall|t: int| i <= t < e.len() ==> e[t].0 > window_hi(a, b),
    ensures
        walk_keys(e, roots, b, a, lv, s, i) == Seq::<Found>::empty(),
    decreases e.len() - i,
{
    if lv <= b.depth && i < e.len() {
        lemma_walk_keys_past(e, roots, b, a, lv, s, i + 1);
    }
}

/// The search over sorted roots: is some root within `[lo, hi]`.
fn root_in_window(roots: &[u64], lo: u64, hi: u64) -> (r: bool)
    requires
        sorted(roots@),
    ensures
        r == has_root(roots@, lo, hi),
{
    let n = roots.len();
    let mut idx: usize = 0;
    if n > 32 {
        // More than 32 roots are bisected; fewer are scanned in order.
        let mut b: usize = n;
        while idx < b
            invariant
                idx <= b <= n == roots@.len(),
                sorted(roots@),
                forall|i: int| 0 <= i < idx ==> roots@[i] < lo,
                forall|i: int| b <= i < n ==> roots@[i] >= lo,
            decreases b - idx,
        {
            let m = idx + (b - idx) / 2;
            if roots[m] < lo {
                idx = m + 1;
            } else {
                b = m;
            }
        }
    } else {
        while idx < n && roots[idx] < lo
            invariant
                idx <= n == roots@.len(),
                forall|i: int| 0 <= i < idx ==> roots@[i] < lo,
            decreases n - idx,
        {
            idx = idx + 1;
        }
    }
    let r = idx < n && roots[idx] <= hi;
    proof {
        if has_root(roots@, lo, hi) && !r {
            let i = choose|i: int| 0 <= i < roots@.len() && lo <= #[trigger] roots@[i] <= hi;
            if i >= idx {
                assert(roots@[idx as int] <= roots@[i]);
            }
        }
    }
    r
}

/// A chain: the address it starts from and its links, innermost first.
pub struct Chain {
    addr: u64,
    data: Vec<Link>,
}

impl View for Chain {
    type V = Found;

    closed spec fn view(&self) -> Found {
        (self.addr, self.data@)
    }
}

/// Offsets of links, outermost first.
pub open spec fn offsets_outer_first(s: Seq<Link>) -> Seq<i64> {
    Seq::new(s.len(), |i: int| s[s.len() - 1 - i].1)
}

/// Position of the first link after the innermost whose pointer value equals
/// the innermost link's, searching from `j`.
pub open spec fn first_repeat(s: Seq<Link>, j: int) -> Option<int>
    decreases s.len() - j,
{
    if j < 1 || j >= s.len() {
        None
    } else if s[j].0 == s[0].0 {
        Some(j)
    } else {
        first_repeat(s, j + 1)
    }
}

impl Chain {
    /// The address the chain starts from.
    pub fn addr(&self) -> (r: u64)
        ensures
            r == self@.0,
    {
        self.addr
    }

    /// The offsets, outermost first.
    pub fn data(&self) -> (r: Vec<i64>)
        ensures
            r@ == offsets_outer_first(self@.1),
    {
        let mut out: Vec<i64> = Vec::new();
        let n = self.data.len();
        let mut i: usize = 0;
        while i < n
            invariant
                n == self.data@.len(),
                i <= n,
                out@ == offsets_outer_first(self.data@).subrange(0, i as int),
            decreases n - i,
        {
            out.push(self.data[n - 1 - i].1);
            assert(out@ =~= offsets_outer_first(self.data@).subrange(0, i + 1));
            i = i + 1;
        }
        assert(out@ =~= offsets_outer_first(self.data@));
        out
    }

    /// The links, innermost first.
    pub fn raw_data(&self) -> (r: &[Link])
        ensures
            r@ == self@.1,
    {
        self.data.as_slice()
    }

    /// Number of links.
    pub fn len(&self) -> (r: usize)
        ensures
            r == self@.1.len(),
    {
        self.data.len()
    }

    /// The outermost offset, written first.
    pub fn first(&self) -> (r: Option<i64>)
        ensures
            self@.1.len() == 0 ==> r is None,
            self@.1.len() > 0 ==> r == Some(self@.1.last().1),
    {
        if self.data.len() == 0 {
            None
        } else {
            Some(self.data[self.data.len() - 1].1)
        }
    }

    /// The innermost offset, written last.
    pub fn last(&self) -> (r: Option<i64>)
        ensures
            self@.1.len() == 0 ==> r is None,
            self@.1.len() > 0 ==> r == Some(self@.1[0].1),
    {
        if self.data.len() == 0 {
            None
        } else {
            Some(self.data[0].1)
        }
    }

    /// Where the innermost link's pointer value recurs further out, the chain
    /// without the links between: the innermost link, then those after the
    /// first recurrence, offsets outermost first. None when it does not recur.
    pub fn ref_cycle(&self) -> (r: Option<Vec<i64>>)
        ensures
            first_repeat(self@.1, 1) is None ==> r is None,
            first_repeat(self@.1, 1) matches Some(n) ==> (r matches Some(v) && v@ == offsets_outer_first(
                seq![self@.1[0]] + self@.1.subrange(n + 1, self@.1.len() as int),
            )),
    {
        let len = self.data.len();
        if len == 0 {
            return None;
        }
        let k0 = self.data[0].0;
        let mut n: usize = 1;
        while n < len && self.data[n].0 != k0
            invariant
                len == self.data@.len(),
                1 <= n <= len,
                k0 == self.data@[0].0,
                first_repeat(self.data@, 1) == first_repeat(self.data@, n as int),
            decreases len - n,
        {
            n = n + 1;
        }
        if n == len {
            return None;
        }
        let ghost kept = seq![self.data@[0]] + self.data@.subrange(n + 1, len as int);
        let mut out: Vec<i64> = Vec::new();
        let mut t: usize = len;
        while t > n + 1
            invariant
                n + 1 <= t <= len == self.data@.len(),
                kept == seq![self.data@[0]] + self.data@.subrange(n + 1, len as int),
                out@ == offsets_outer_first(kept).subrange(0, (len - t) as int),
            decreases t,
        {
            t = t - 1;
            out.push(self.data[t].1);
            assert(out@ =~= offsets_outer_first(kept).subrange(0, (len - t) as int));
        }
        out.push(self.data[0].1);
        assert(out@ =~= offsets_outer_first(kept));
        Some(out)
    }
}

/// Collects the lines written for the chains handed to it.
pub struct Sink {
    emit: Emit,
    written: usize,
    out: Vec<u8>,
    found: Vec<Chain>,
}

impl Sink {
    pub closed spec fn config(&self) -> Emit {
        self.emit
    }

    pub closed spec fn state(&self) -> SinkState {
        (self.written as nat, self.out@, self.found@.map_values(|c: Chain| c@))
    }

    pub closed spec fn wf(&self) -> bool {
        self.emit.max is None ==> self.written == 0
    }

    pub fn new(emit: Emit) -> (r: Self)
        ensures
            r.wf(),
            r.config() == emit,
            r.state() == (0nat, Seq::<u8>::empty(), Seq::<Found>::empty()),
    {
        let r = Sink { emit, written: 0, out: Vec::new(), found: Vec::new() };
        assert(r.found@.map_values(|c: Chain| c@) =~= Seq::<Found>::empty());
        r
    }

    pub fn full(&self) -> (r: bool)
        ensures
            r == is_full(self.config().max, self.state().0),
    {
        match self.emit.max {
            Some(m) => self.written >= m,
            None => false,
        }
    }

    /// The bytes written so far.
    pub fn into_bytes(self) -> (r: Vec<u8>)
        ensures
            r@ == self.state().1,
    {
        self.out
    }

    /// The chains kept so far.
    pub fn into_chains(self) -> (r: Vec<Chain>)
        ensures
            r@.map_values(|c: Chain| c@) == self.state().2,
    {
        self.found
    }

    /// Takes one chain.
    pub fn accept(&mut self, ms: &ModuleIndex, a: u64, links: &[Link])
        requires
            old(self).wf(),
        ensures
            final(self).wf(),
            final(self).config() == old(self).config(),
            final(self).state() == feed(old(self).config(), ms@, old(self).state(), (a, links@)),
    {
        if self.full() {
            return;
        }
        match self.emit.last {
            Some(o) => {
                if links.len() == 0 || links[0].1 != o {
                    return;
                }
            },
            None => {},
        }
        let mut line: Vec<u8>;
        match self.emit.head {
            Head::Collect => {
                let mut data: Vec<Link> = Vec::new();
                let mut i: usize = 0;
                while i < links.len()
                    invariant
                        i <= links@.len(),
                        data@ == links@.subrange(0, i as int),
                    decreases links@.len() - i,
                {
                    data.push(links[i]);
                    assert(data@ =~= links@.subrange(0, i + 1));
                    i = i + 1;
                }
                assert(data@ =~= links@);
                let ghost pre = self.found@.map_values(|c: Chain| c@);
                self.found.push(Chain { addr: a, data });
                assert(self.found@.map_values(|c: Chain| c@) =~= pre.push((a, links@)));
                if self.emit.max.is_some() {
                    self.written = self.written + 1;
                }
                return;
            },
            Head::Absolute(base) => {
                line = decimal_u64(a.wrapping_sub(base));
            },
            Head::Modules => {
                match ms.lookup(a) {
                    Some(i) => {
                        proof {
                            crate::index::lemma_module_at_bounds(ms@, a);
                        }
                        let m = ms.get(i);
                        line = m.name.clone();
                        assert(line@ =~= m.name@);
                        line.push(43u8);
                        let mut d = decimal_u64(a - m.start);
                        line.append(&mut d);
                    },
                    None => {
                        return;
                    },
                }
            },
        }
        let ghost head_text = line@;
        let mut n: usize = links.len();
        assert(links@.subrange(0, n as int) =~= links@);
        while n > 0
            invariant
                n <= links@.len(),
                line@ + at_text(links@.subrange(0, n as int)) == head_text + at_text(links@),
            decreases n,
        {
            let ghost sub = links@.subrange(0, n as int);
            assert(sub.drop_last() =~= links@.subrange(0, n - 1));
            line.push(64u8);
            let mut d = decimal_i64(links[n - 1].1);
            line.append(&mut d);
            assert(line@ + at_text(links@.subrange(0, n - 1)) =~= head_text + at_text(links@)) by {
                assert(at_text(sub) == seq![64u8] + dec_int(sub.last().1 as int) + at_text(sub.drop_last()));
            }
            n = n - 1;
        }
        line.push(10u8);
        assert(links@.subrange(0, 0) =~= Seq::<Link>::empty());
        assert(self.emit.head !is Collect);
        assert(line@ =~= head_text + at_text(links@) + seq![10u8]);
        self.out.append(&mut line);
        if self.emit.max.is_some() {
            self.written = self.written + 1;
        }
    }
}

/// Walks from address `a` at level `lv`, handing each chain found to `sink`.
fn walk_node(
    rev: &ReverseIndex,
    roots: &[u64],
    b: Bounds,
    ms: &ModuleIndex,
    a: u64,
    lv: usize,
    stack: &mut ArrayVec<Link, 32>,
    sink: &mut Sink,
)
    requires
        rev.wf(),
        sorted(roots@),
        b.depth <= MAX_DEPTH,
        1 <= lv <= b.depth + 1,
        links_of(*old(stack)).len() == lv - 1,
        old(sink).wf(),
    ensures
        links_of(*final(stack)) == links_of(*old(stack)),
        final(sink).wf(),
        final(sink).config() == old(sink).config(),
        final(sink).state() == feed_all(
            old(sink).config(),
            ms@,
            old(sink).state(),
            walk(rev@, roots@, b, a, lv as nat, links_of(*old(stack))),
        ),
    decreases b.depth + 1 - lv,
{
    let ghost s = links_of(*stack);
    let ghost c = sink.config();
    let ghost st0 = sink.state();
    let lo = a.saturating_sub(b.below);
    let hi = a.saturating_add(b.above);
    let ghost here = if has_root(roots@, lo, hi) && s.len() >= b.node {
        seq![(a, s)]
    } else {
        Seq::<Found>::empty()
    };
    if root_in_window(roots, lo, hi) && lv - 1 >= b.node {
        let links = stack_slice(stack);
        sink.accept(ms, a, links);
        proof {
            assert(here.drop_last() =~= Seq::<Found>::empty());
            assert(here.last() == (a, s));
            assert(feed_all(c, ms@, st0, here.drop_last()) == st0);
        }
    }
    assert(feed_all(c, ms@, st0, here) == sink.state());
    if lv <= b.depth {
        let ghost e = rev@;
        let ghost target = feed_all(c, ms@, st0, here + walk_keys(e, roots@, b, a, lv as nat, s, 0));
        proof {
            lemma_feed_all_concat(c, ms@, st0, here, walk_keys(e, roots@, b, a, lv as nat, s, 0));
            assert(walk(e, roots@, b, a, lv as nat, s) == here + walk_keys(e, roots@, b, a, lv as nat, s, 0));
            rev.lemma_ascending();
        }
        let mut i = rev.lower_bound(lo);
        proof {
            lemma_walk_keys_skip(e, roots@, b, a, lv as nat, s, i as nat);
        }
        while i < rev.len()
            invariant
                rev.wf(),
                e == rev@,
                sorted(roots@),
                b.depth <= MAX_DEPTH,
                1 <= lv <= b.depth,
                s == links_of(*old(stack)),
                c == old(sink).config(),
                target == feed_all(c, ms@, old(sink).state(), walk(e, roots@, b, a, lv as nat, s)),
                lo == window_lo(a, b),
                hi == window_hi(a, b),
                i <= e.len(),
                forall|t: int| i <= t < e.len() ==> e[t].0 >= lo,
                forall|t: int, u: int| 0 <= t < u < e.len() ==> e[t].0 < e[u].0,
                links_of(*stack) == s,
                s.len() == lv - 1,
                sink.wf(),
                sink.config() == c,
                feed_all(c, ms@, sink.state(), walk_keys(e, roots@, b, a, lv as nat, s, i as nat)) == target,
            decreases e.len() - i,
        {
            if sink.full() {
                proof {
                    lemma_feed_all_full(c, ms@, sink.state(), walk_keys(e, roots@, b, a, lv as nat, s, i as nat));
                }
                return;
            }
            let k = rev.key(i);
            if k > hi {
                proof {
                    assert forall|t: int| i <= t < e.len() implies e[t].0 > window_hi(a, b) by {
                        if t > i {
                            assert(e[i as int].0 < e[t].0);
                        }
                    }
                    lemma_walk_keys_past(e, roots@, b, a, lv as nat, s, i as nat);
                }
                return;
            }
            let link: Link = (k, #[verifier::truncate] (a.wrapping_sub(k) as i64));
            stack_push(stack, link);
            let ghost s2 = s.push(link);
            let ghost rest = walk_keys(e, roots@, b, a, lv as nat, s, (i + 1) as nat);
            let locs = rev.bucket(i);
            proof {
                assert(walk_keys(e, roots@, b, a, lv as nat, s, i as nat)
                    == walk_locs(e, roots@, b, lv as nat, s2, locs@, 0) + rest);
            }
            let mut j: usize = 0;
            while j < locs.len() && !sink.full()
                invariant
                    rev.wf(),
                    e == rev@,
                    sorted(roots@),
                    b.depth <= MAX_DEPTH,
                    1 <= lv <= b.depth,
                    s == links_of(*old(stack)),
                    c == old(sink).config(),
                    target == feed_all(c, ms@, old(sink).state(), walk(e, roots@, b, a, lv as nat, s)),
                    j <= locs@.len(),
                    links_of(*stack) == s2,
                    s2.len() == lv,
                    sink.wf(),
                    sink.config() == c,
                    feed_all(c, ms@, sink.state(), walk_locs(e, roots@, b, lv as nat, s2, locs@, j as nat) + rest)
                        == target,
                decreases locs@.len() - j,
            {
                let ghost before = sink.state();
                let ghost sub = walk(e, roots@, b, locs@[j as int], (lv + 1) as nat, s2);
                let ghost tail = walk_locs(e, roots@, b, lv as nat, s2, locs@, (j + 1) as nat);
                walk_node(rev, roots, b, ms, locs[j], lv + 1, stack, sink);
                proof {
                    assert(walk_locs(e, roots@, b, lv as nat, s2, locs@, j as nat) == sub + tail);
                    assert(sub + tail + rest =~= sub + (tail + rest));
                    lemma_feed_all_concat(c, ms@, before, sub, tail + rest);
                }
                j = j + 1;
            }
            stack_pop(stack);
            proof {
                assert(s2.drop_last() =~= s);
                let w = walk_locs(e, roots@, b, lv as nat, s2, locs@, j as nat);
                if is_full(c.max, sink.state().0) {
                    lemma_feed_all_full(c, ms@, sink.state(), w + rest);
                    lemma_feed_all_full(c, ms@, sink.state(), rest);
                } else {
                    assert(w =~= Seq::<Found>::empty());
                    assert(w + rest =~= rest);
                }
            }
            i = i + 1;
        }
        proof {
            assert(walk_keys(e, roots@, b, a, lv as nat, s, i as nat) =~= Seq::<Found>::empty());
        }
    } else {
        assert(walk(rev@, roots@, b, a, lv as nat, s) == here);
    }
}

/// The text written by a search from `target`: one line per chain reported.
pub fn pointer_chain_scan(
    rev: &ReverseIndex,
    roots: &[u64],
    b: Bounds,
    emit: Emit,
    ms: &ModuleIndex,
    target: u64,
) -> (r: Vec<u8>)
    requires
        rev.wf(),
        sorted(roots@),
        b.depth <= MAX_DEPTH,
    ensures
        r@ == scan_output(rev@, roots@, b, emit, ms@, target),
{
    let mut stack = stack_new();
    let mut sink = Sink::new(emit);
    walk_node(rev, roots, b, ms, target, 1, &mut stack, &mut sink);
    sink.into_bytes()
}

/// A search written with absolute heads, each as its distance from `base`.
pub struct WalkParams<'a> {
    pub base: u64,
    pub depth: usize,
    pub target: u64,
    pub node: usize,
    /// How far above and how far below an address a matching pointer may lie.
    pub offset: (u64, u64),
    /// The roots, ascending.
    pub points: &'a [u64],
}

pub open spec fn walk_bounds(p: WalkParams) -> Bounds {
    Bounds { depth: p.depth, node: p.node, above: p.offset.0, below: p.offset.1 }
}

/// Search parameters for a collecting search.
#[derive(Clone, Copy)]
pub struct Param {
    /// Longest chain, in links.
    pub depth: usize,
    /// The address the chains lead to.
    pub addr: u64,
    /// How far above and how far below an address a matching pointer may lie.
    pub range: (u64, u64),
}

pub open spec fn param_bounds(p: Param) -> Bounds {
    Bounds { depth: p.depth, node: 0, above: p.range.0, below: p.range.1 }
}

/// Searches `map` from `param.addr` and keeps the chains found, at most `max`
/// of them. A depth over the limit, or roots out of order, are refused.
pub fn try_pointer_chain_scan(map: &ReverseIndex, points: &[u64], param: Param, max: Option<usize>) -> (r: Result<
    Vec<Chain>,
    Error,
>)
    requires
        map.wf(),
    ensures
        param.depth > MAX_DEPTH || !sorted(points@) ==> r is Err,
        param.depth <= MAX_DEPTH && sorted(points@) ==> (r matches Ok(v) && v@.map_values(|c: Chain| c@)
            == scan_found(map@, points@, param_bounds(param), max, param.addr)),
{
    if param.depth > MAX_DEPTH || !crate::scanner::is_sorted(points) {
        return Err(Error::Params);
    }
    let b = Bounds { depth: param.depth, node: 0, above: param.range.0, below: param.range.1 };
    let emit = Emit { head: Head::Collect, last: None, max };
    let ms = ModuleIndex::new();
    let mut stack = stack_new();
    let mut sink = Sink::new(emit);
    walk_node(map, points, b, &ms, param.addr, 1, &mut stack, &mut sink);
    Ok(sink.into_chains())
}

/// Searches `map` from `params.target`. A depth over the limit, or roots out
/// of order, are refused.
pub fn pointer_chain_scanner(map: &ReverseIndex, params: WalkParams) -> (r: Result<Vec<u8>, Error>)
    requires
        map.wf(),
    ensures
        params.depth > MAX_DEPTH || !sorted(params.points@) ==> r == Err::<Vec<u8>, Error>(Error::Params),
        params.depth <= MAX_DEPTH && sorted(params.points@) ==> (r matches Ok(out) && out@ == scan_output(
            map@,
            params.points@,
            walk_bounds(params),
            Emit { head: Head::Absolute(params.base), last: None, max: None },
            Seq::empty(),
            params.target,
        )),
{
    if params.depth > MAX_DEPTH || !crate::scanner::is_sorted(params.points) {
        return Err(Error::Params);
    }
    let b = Bounds { depth: params.depth, node: params.node, above: params.offset.0, below: params.offset.1 };
    let emit = Emit { head: Head::Absolute(params.base), last: None, max: None };
    let ms = ModuleIndex::new();
    Ok(pointer_chain_scan(map, params.points, b, emit, &ms, params.target))
}

} // verus!
