//! Following a chain in a live process: `NAME[K]+BASE.O1.O2...`, where
//! `NAME[K]` is the `K`-th module of that file name, counted from 0.

use vstd::prelude::*;
use vstd::string::StringSliceAdditionalSpecFns;
use crate::builder::VirtualMemoryRead;
use crate::cmd::{dec_in, dec_value, parse_dec, parse_digits};
use crate::codec::{find_byte, find_in, lemma_find_byte, read_word};
use crate::index::{Module, ModuleView};
use crate::region::{coalesce, coalesced, equals, file_name, file_name_exec, Page};
use crate::scanner::page_names;

verus! {

/// Position of the last `c` in `s`.
pub open spec fn last_byte(s: Seq<u8>, c: u8) -> Option<int>
    decreases s.len(),
{
    if s.len() == 0 {
        None
    } else if s.last() == c {
        Some(s.len() - 1)
    } else {
        last_byte(s.drop_last(), c)
    }
}

pub proof fn lemma_last_byte(s: Seq<u8>, c: u8)
    ensures
        last_byte(s, c) matches Some(i) ==> 0 <= i < s.len() && s[i] == c,
    decreases s.len(),
{
    if s.len() > 0 {
        lemma_last_byte(s.drop_last(), c);
    }
}

/// A signed decimal offset: an optional sign, then digits, within 64 bits.
pub open spec fn parse_signed(s: Seq<u8>) -> Option<i64> {
    if s.len() > 0 && s[0] == 45 {
        let d = s.drop_first();
        if d.len() > 0 && (forall|i: int| 0 <= i < d.len() ==> 48 <= #[trigger] d[i] <= 57) && dec_value(d)
            <= 0x8000_0000_0000_0000 {
            Some((-dec_value(d)) as i64)
        } else {
            None
        }
    } else {
        match parse_dec(s) {
            Some(v) => if v <= 0x7fff_ffff_ffff_ffff {
                Some(v as i64)
            } else {
                None
            },
            None => None,
        }
    }
}

/// Offsets separated by `.`.
pub open spec fn parse_items(s: Seq<u8>) -> Option<Seq<i64>>
    decreases s.len(),
{
    match find_byte(s, 46) {
        Some(p) => if 0 <= p < s.len() {
            match (parse_signed(s.subrange(0, p)), parse_items(s.subrange(p + 1, s.len() as int))) {
                (Some(a), Some(rest)) => Some(seq![a] + rest),
                _ => None,
            }
        } else {
            None
        },
        None => match parse_signed(s) {
            Some(a) => Some(seq![a]),
            None => None,
        },
    }
}

/// The parts of a chain: module name, its number, base offset and offsets.
pub open spec fn parse_chain(s: Seq<u8>) -> Option<(Seq<u8>, u64, u64, Seq<i64>)> {
    match last_byte(s, 93) {
        None => None,
        Some(rb) => {
            let head = s.subrange(0, rb);
            let tail = s.subrange(rb + 1, s.len() as int);
            match last_byte(head, 91) {
                None => None,
                Some(lb) => {
                    let name = head.subrange(0, lb);
                    let (base_text, items) = match find_byte(tail, 46) {
                        Some(p) => (tail.subrange(0, p), parse_items(tail.subrange(p + 1, tail.len() as int))),
                        None => (tail, Some(Seq::<i64>::empty())),
                    };
                    match (parse_dec(head.subrange(lb + 1, head.len() as int)), parse_dec(base_text), items) {
                        (Some(k), Some(b), Some(os)) => Some((name, k, b, os)),
                        _ => None,
                    }
                },
            }
        },
    }
}

/// The start of the `k`-th module (from 0), counting from position `i`, whose
/// file name is `name`.
pub open spec fn nth_named(c: Seq<ModuleView>, name: Seq<u8>, k: nat, i: int) -> Option<u64>
    decreases c.len() - i,
{
    if i < 0 || i >= c.len() {
        None
    } else if file_name(c[i].2) == name {
        if k == 0 {
            Some(c[i].0)
        } else {
            nth_named(c, name, (k - 1) as nat, i + 1)
        }
    } else {
        nth_named(c, name, k, i + 1)
    }
}

/// The start of the `index`-th module named `name` among pages.
pub open spec fn base_of(pages: Seq<Page>, name: Seq<u8>, index: nat) -> Option<u64> {
    nth_named(coalesce(page_names(pages)), name, index, 0)
}

/// The start of the `index`-th module named `name` among the pages.
pub fn find_base_address(pages: &[Page], name: &[u8], index: u64) -> (r: Option<u64>)
    ensures
        r == base_of(pages@, name@, index as nat),
{
    let c = coalesced(pages);
    let ghost cv = c@.map_values(|m: Module| m@);
    let mut k: u64 = index;
    let mut i: usize = 0;
    while i < c.len()
        invariant
            i <= c@.len(),
            cv == c@.map_values(|m: Module| m@),
            base_of(pages@, name@, index as nat) == nth_named(cv, name@, k as nat, i as int),
        decreases c@.len() - i,
    {
        let f = file_name_exec(&c[i].name);
        if equals(f.as_slice(), name) {
            if k == 0 {
                return Some(c[i].start);
            }
            k = k - 1;
        }
        i = i + 1;
    }
    None
}

/// Position of the last `c` in `t[lo..hi]`, relative to `lo`.
fn last_in(t: &[u8], lo: usize, hi: usize, c: u8) -> (r: Option<usize>)
    requires
        lo <= hi <= t@.len(),
    ensures
        r matches Some(i) ==> last_byte(t@.subrange(lo as int, hi as int), c) == Some(i as int),
        r is None ==> last_byte(t@.subrange(lo as int, hi as int), c) is None,
{
    let mut e = hi;
    while e > lo
        invariant
            lo <= e <= hi <= t@.len(),
            last_byte(t@.subrange(lo as int, hi as int), c) == last_byte(t@.subrange(lo as int, e as int), c),
        decreases e,
    {
        assert(t@.subrange(lo as int, e as int).drop_last() =~= t@.subrange(lo as int, e - 1));
        if t[e - 1] == c {
            return Some(e - 1 - lo);
        }
        e = e - 1;
    }
    None
}

fn signed_in(t: &[u8], lo: usize, hi: usize) -> (r: Option<i64>)
    requires
        lo <= hi <= t@.len(),
    ensures
        r == parse_signed(t@.subrange(lo as int, hi as int)),
{
    let ghost s = t@.subrange(lo as int, hi as int);
    if lo < hi && t[lo] == 45 {
        assert(s.drop_first() =~= t@.subrange(lo + 1, hi as int));
        let mut i = lo + 1;
        if i == hi {
            return None;
        }
        let mut acc: u64 = 0;
        assert(t@.subrange(lo + 1, lo + 1) =~= Seq::<u8>::empty());
        while i < hi
            invariant
                lo + 1 <= i <= hi <= t@.len(),
                s == t@.subrange(lo as int, hi as int),
                s.len() > 0 && s[0] == 45,
                s.drop_first() == t@.subrange(lo + 1, hi as int),
                acc == dec_value(t@.subrange(lo + 1, i as int)),
                acc <= 0x8000_0000_0000_0000,
                forall|q: int| lo + 1 <= q < i ==> 48 <= #[trigger] t@[q] <= 57,
            decreases hi - i,
        {
            let c = t[i];
            let ghost pre = t@.subrange(lo + 1, i as int);
            assert(t@.subrange(lo + 1, i + 1) =~= pre.push(c));
            if c < 48 || c > 57 {
                assert(!(48 <= s.drop_first()[i - lo - 1] <= 57));
                return None;
            }
            proof {
                crate::cmd::lemma_dec_value_grows(pre, c);
            }
            let v = (c - 48) as u64;
            if acc > (0x8000_0000_0000_0000 - v) / 10 {
                proof {
                    let d = s.drop_first();
                    if forall|q: int| 0 <= q < d.len() ==> 48 <= #[trigger] d[q] <= 57 {
                        crate::cmd::lemma_dec_value_prefix(d, i + 1 - lo - 1, d.len() as int);
                        assert(d.subrange(0, i + 1 - lo - 1) =~= pre.push(c));
                        assert(d.subrange(0, d.len() as int) =~= d);
                    }
                }
                return None;
            }
            acc = acc * 10 + v;
            i = i + 1;
        }
        assert(s.drop_first() =~= t@.subrange(lo + 1, i as int));
        if acc == 0x8000_0000_0000_0000 {
            Some(i64::MIN)
        } else {
            Some(-(acc as i64))
        }
    } else {
        match dec_in(t, lo, hi) {
            Some(v) => if v <= 0x7fff_ffff_ffff_ffff {
                Some(v as i64)
            } else {
                None
            },
            None => None,
        }
    }
}

fn items_in(t: &[u8], lo: usize, hi: usize) -> (r: Option<Vec<i64>>)
    requires
        lo <= hi <= t@.len(),
    ensures
        r matches Some(v) ==> parse_items(t@.subrange(lo as int, hi as int)) == Some(v@),
        r is None ==> parse_items(t@.subrange(lo as int, hi as int)) is None,
{
    let mut out: Vec<i64> = Vec::new();
    let mut p: usize = lo;
    let ghost whole = t@.subrange(lo as int, hi as int);
    loop
        invariant
            lo <= p <= hi <= t@.len(),
            whole == t@.subrange(lo as int, hi as int),
            parse_items(whole) == (match parse_items(t@.subrange(p as int, hi as int)) {
                Some(r2) => Some(out@ + r2),
                None => None::<Seq<i64>>,
            }),
        decreases hi - p,
    {
        let ghost sub = t@.subrange(p as int, hi as int);
        proof {
            lemma_find_byte(sub, 46);
        }
        match find_in(t, p, hi, 46) {
            Some(k) => {
                assert(sub.subrange(0, k as int) =~= t@.subrange(p as int, p + k));
                assert(sub.subrange(k + 1, sub.len() as int) =~= t@.subrange(p + k + 1, hi as int));
                match signed_in(t, p, p + k) {
                    Some(v) => {
                        let ghost before = out@;
                        out.push(v);
                        proof {
                            match parse_items(t@.subrange(p + k + 1, hi as int)) {
                                Some(r2) => {
                                    assert(before + (seq![v] + r2) =~= out@ + r2);
                                },
                                None => {},
                            }
                        }
                        p = p + k + 1;
                    },
                    None => {
                        assert(parse_items(sub) is None);
                        return None;
                    },
                }
            },
            None => {
                match signed_in(t, p, hi) {
                    Some(v) => {
                        let ghost before = out@;
                        out.push(v);
                        assert(before + seq![v] =~= out@);
                        return Some(out);
                    },
                    None => {
                        assert(parse_items(sub) is None);
                        return None;
                    },
                }
            },
        }
    }
}

/// The address a chain starts from (its module's start plus the base offset)
/// and its offsets, from the pages of the process.
pub open spec fn chain_start(pages: Seq<Page>, s: Seq<u8>) -> Option<(u64, Seq<i64>)> {
    match parse_chain(s) {
        Some((name, k, b, os)) => match base_of(pages, name, k as nat) {
            Some(start) => if start + b <= u64::MAX {
                Some(((start + b) as u64, os))
            } else {
                None
            },
            None => None,
        },
        None => None,
    }
}

/// Locates a chain's start among the pages and parses its offsets.
pub fn locate_chain(pages: &[Page], chain: &str) -> (r: Option<(u64, Vec<i64>)>)
    ensures
        chain_start(pages@, chain.spec_bytes()) is None ==> r is None,
        chain_start(pages@, chain.spec_bytes()) matches Some((a, os)) ==> (r matches Some((x, v)) && x == a && v@ == os),
{
    let t = chain.as_bytes();
    let n = t.len();
    assert(t@.subrange(0, n as int) =~= t@);
    proof {
        lemma_last_byte(t@, 93);
    }
    let rb = match last_in(t, 0, n, 93) {
        Some(rb) => rb,
        None => {
            return None;
        },
    };
    let ghost head = t@.subrange(0, rb as int);
    let ghost tail = t@.subrange(rb + 1, n as int);
    proof {
        lemma_last_byte(head, 91);
    }
    assert(t@.subrange(0, rb as int) =~= head);
    let lb = match last_in(t, 0, rb, 91) {
        Some(lb) => lb,
        None => {
            return None;
        },
    };
    assert(head.subrange(0, lb as int) =~= t@.subrange(0, lb as int));
    assert(head.subrange(lb + 1, head.len() as int) =~= t@.subrange(lb + 1, rb as int));
    proof {
        lemma_find_byte(tail, 46);
    }
    let (base_end, items) = match find_in(t, rb + 1, n, 46) {
        Some(p) => {
            assert(tail.subrange(0, p as int) =~= t@.subrange(rb + 1, rb + 1 + p));
            assert(tail.subrange(p + 1, tail.len() as int) =~= t@.subrange(rb + 1 + p + 1, n as int));
            (rb + 1 + p, items_in(t, rb + 2 + p, n))
        },
        None => {
            assert(tail =~= t@.subrange(rb + 1, n as int));
            (n, Some(Vec::new()))
        },
    };
    let k = dec_in(t, lb + 1, rb);
    let b = dec_in(t, rb + 1, base_end);
    match (k, b, items) {
        (Some(k), Some(b), Some(os)) => {
            let mut name: Vec<u8> = Vec::new();
            let mut i: usize = 0;
            while i < lb
                invariant
                    i <= lb <= t@.len(),
                    name@ == t@.subrange(0, i as int),
                decreases lb - i,
            {
                name.push(t[i]);
                assert(name@ =~= t@.subrange(0, i + 1));
                i = i + 1;
            }
            match find_base_address(pages, name.as_slice(), k) {
                Some(start) => {
                    if start > u64::MAX - b {
                        None
                    } else {
                        Some((start + b, os))
                    }
                },
                None => None,
            }
        },
        _ => None,
    }
}

/// `a + o`, when it lies within the address space.
pub open spec fn add_signed_spec(a: u64, o: i64) -> Option<u64> {
    if 0 <= a + o <= u64::MAX {
        Some((a + o) as u64)
    } else {
        None
    }
}

/// The address a chain reaches from `a` when the words read along it are
/// `words`: each step adds the next offset to the word read, and fails when
/// the sum leaves the address space.
pub open spec fn follow(a: u64, words: Seq<u64>, os: Seq<i64>) -> Option<u64>
    decreases os.len(),
{
    if os.len() == 0 || words.len() == 0 {
        if os.len() == 0 { Some(a) } else { None }
    } else {
        match follow(a, words.drop_last(), os.drop_last()) {
            Some(_) => add_signed_spec(words.last(), os.last()),
            None => None,
        }
    }
}

/// `a + o`, when it lies within the address space.
pub fn add_signed(a: u64, o: i64) -> (r: Option<u64>)
    ensures
        0 <= a + o <= u64::MAX ==> r == Some((a + o) as u64),
        !(0 <= a + o <= u64::MAX) ==> r is None,
{
    if o >= 0 {
        let d = o as u64;
        if a > u64::MAX - d {
            None
        } else {
            Some(a + d)
        }
    } else {
        let d: u64 = if o == i64::MIN {
            0x8000_0000_0000_0000
        } else {
            (-o) as u64
        };
        if a < d {
            None
        } else {
            Some(a - d)
        }
    }
}

/// Follows a chain in a live process: from its start, read the word there and
/// add the next offset, for each offset in turn. None when the chain does not
/// parse, its module is missing, a read fails or comes up short, or an
/// address leaves the address space.
pub fn get_pointer_chain_address<P: VirtualMemoryRead>(proc: &P, pages: &[Page], chain: &str) -> (r: Option<u64>)
    ensures
        chain_start(pages@, chain.spec_bytes()) is None ==> r is None,
        chain_start(pages@, chain.spec_bytes()) matches Some((a, os)) ==> (os.len() == 0 ==> r == Some(a)),
        r matches Some(x) ==> (chain_start(pages@, chain.spec_bytes()) matches Some((a, os)) && exists|words: Seq<u64>|
            words.len() == os.len() && #[trigger] follow(a, words, os) == Some(x)),
{
    let (start, items) = match locate_chain(pages, chain) {
        Some(x) => x,
        None => {
            return None;
        },
    };
    let mut address = start;
    let mut i: usize = 0;
    let ghost mut words: Seq<u64> = Seq::empty();
    assert(items@.subrange(0, 0) =~= Seq::<i64>::empty());
    while i < items.len()
        invariant
            i <= items@.len(),
            words.len() == i,
            follow(start, words, items@.subrange(0, i as int)) == Some(address),
            items@.len() == 0 ==> address == start,
            chain_start(pages@, chain.spec_bytes()) matches Some((a, os)) ==> (os == items@ && a == start),
        decreases items@.len() - i,
    {
        let mut buf: Vec<u8> = vec![0u8; 8];
        let n = match proc.read_at(&mut buf, address) {
            Ok(n) => n,
            Err(_) => {
                return None;
            },
        };
        if n < 8 || buf.len() < 8 {
            return None;
        }
        let word = read_word(buf.as_slice(), 0);
        address = match add_signed(word, items[i]) {
            Some(x) => x,
            None => {
                return None;
            },
        };
        proof {
            let ghost old_words = words;
            words = words.push(word);
            assert(words.drop_last() =~= old_words);
            assert(items@.subrange(0, i + 1).drop_last() =~= items@.subrange(0, i as int));
        }
        i = i + 1;
    }
    assert(items@.subrange(0, i as int) =~= items@);
    Some(address)
}

} // verus!
