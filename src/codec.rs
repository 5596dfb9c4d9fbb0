//! On-disk formats: the pair file, a plain run of little-endian (location,
//! value) records, and the module file, one `HEXSTART-HEXEND NAME` line each.

use vstd::prelude::*;
use crate::index::{Module, ModuleView};
use crate::num::{le_bytes_n, le_u64, lemma_le_round_trip, lemma_pow256_8, pow256};

verus! {

/// Bytes in one record: a location word then a value word.
pub const RECORD: usize = 16;

/// The bytes of a list of pairs.
pub open spec fn pairs_bytes(s: Seq<(u64, u64)>) -> Seq<u8>
    decreases s.len(),
{
    if s.len() == 0 {
        Seq::empty()
    } else {
        le_bytes_n(s[0].0 as nat, 8) + le_bytes_n(s[0].1 as nat, 8) + pairs_bytes(s.drop_first())
    }
}

/// The pairs in a run of whole records.
pub open spec fn decode_pairs(b: Seq<u8>) -> Seq<(u64, u64)>
    decreases b.len(),
{
    if b.len() < 16 {
        Seq::empty()
    } else {
        seq![(le_u64(b.subrange(0, 8)) as u64, le_u64(b.subrange(8, 16)) as u64)]
            + decode_pairs(b.subrange(16, b.len() as int))
    }
}

pub proof fn lemma_pairs_bytes_len(s: Seq<(u64, u64)>)
    ensures
        pairs_bytes(s).len() == 16 * s.len(),
    decreases s.len(),
{
    if s.len() > 0 {
        lemma_pairs_bytes_len(s.drop_first());
        crate::num::lemma_le_bytes_len(s[0].0 as nat, 8);
        crate::num::lemma_le_bytes_len(s[0].1 as nat, 8);
    }
}

/// Decoding the bytes of a list of pairs gives the list back.
pub proof fn lemma_decode_pairs_bytes(s: Seq<(u64, u64)>)
    ensures
        decode_pairs(pairs_bytes(s)) == s,
    decreases s.len(),
{
    if s.len() > 0 {
        let b = pairs_bytes(s);
        let k = le_bytes_n(s[0].0 as nat, 8);
        let v = le_bytes_n(s[0].1 as nat, 8);
        let rest = pairs_bytes(s.drop_first());
        lemma_pairs_bytes_len(s.drop_first());
        lemma_pow256_8();
        lemma_le_round_trip(s[0].0 as nat, 8);
        lemma_le_round_trip(s[0].1 as nat, 8);
        lemma_pow256_8();
        assert(b.subrange(0, 8) =~= k);
        assert(b.subrange(8, 16) =~= v);
        assert(b.subrange(16, b.len() as int) =~= rest);
        lemma_decode_pairs_bytes(s.drop_first());
        assert(decode_pairs(b) =~= s);
    }
}

/// The bytes of a list of pairs, each as two little-endian words.
pub fn encode_pairs(s: &Vec<(u64, u64)>) -> (r: Vec<u8>)
    ensures
        r@ == pairs_bytes(s@),
{
    let mut out: Vec<u8> = Vec::new();
    let mut n: usize = 0;
    assert(s@.subrange(0, s@.len() as int) =~= s@);
    while n < s.len()
        invariant
            n <= s@.len(),
            out@ + pairs_bytes(s@.subrange(n as int, s@.len() as int)) == pairs_bytes(s@),
        decreases s@.len() - n,
    {
        let ghost rest = s@.subrange(n as int, s@.len() as int);
        assert(rest.drop_first() =~= s@.subrange(n + 1, s@.len() as int));
        let (k, v) = s[n];
        let mut kb = word_bytes(k);
        let mut vb = word_bytes(v);
        let ghost pre = out@;
        out.append(&mut kb);
        out.append(&mut vb);
        assert(out@ + pairs_bytes(s@.subrange(n + 1, s@.len() as int)) =~= pre + pairs_bytes(rest));
        n = n + 1;
    }
    assert(s@.subrange(n as int, s@.len() as int) =~= Seq::<(u64, u64)>::empty());
    assert(out@ + Seq::<u8>::empty() =~= out@);
    out
}

/// The eight little-endian bytes of `v`.
pub fn word_bytes(v: u64) -> (r: Vec<u8>)
    ensures
        r@ == le_bytes_n(v as nat, 8),
{
    let mut out: Vec<u8> = Vec::new();
    let mut x: u64 = v;
    let mut i: usize = 0;
    while i < 8
        invariant
            i <= 8,
            out@ + le_bytes_n(x as nat, (8 - i) as nat) == le_bytes_n(v as nat, 8),
        decreases 8 - i,
    {
        let ghost pre = out@;
        out.push((x % 256) as u8);
        assert(out@ + le_bytes_n((x / 256) as nat, (8 - i - 1) as nat) =~= pre + le_bytes_n(x as nat, (8 - i) as nat));
        x = x / 256;
        i = i + 1;
    }
    assert(out@ + Seq::<u8>::empty() =~= out@);
    out
}

/// The word stored little-endian at `b[p..p + 8]`.
pub fn read_word(b: &[u8], p: usize) -> (r: u64)
    requires
        p + 8 <= b@.len(),
    ensures
        r == le_u64(b@.subrange(p as int, p + 8)),
{
    let len = b.len();
    let mut v: u64 = 0;
    let mut i: usize = 8;
    assert(b@.subrange(p + 8, p + 8) =~= Seq::<u8>::empty());
    assert(pow256(0) == 1);
    while i > 0
        invariant
            i <= 8,
            p + 8 <= b@.len() == len,
            v == le_u64(b@.subrange(p + i, p + 8)),
            v < pow256((8 - i) as nat),
        decreases i,
    {
        i = i - 1;
        let ghost sub = b@.subrange(p + i, p + 8);
        assert(sub.subrange(1, sub.len() as int) =~= b@.subrange(p + i + 1, p + 8));
        proof {
            lemma_pow256_8();
            lemma_pow256_mono((8 - i) as nat, 8);
            assert(pow256((8 - i) as nat) == 256 * pow256((8 - i - 1) as nat));
            assert(v * 256 + b[p + i] < pow256((8 - i) as nat)) by (nonlinear_arith)
                requires
                    v < pow256((8 - i - 1) as nat),
                    b[p + i] < 256,
                    pow256((8 - i) as nat) == 256 * pow256((8 - i - 1) as nat),
            ;
            assert(v * 256 + b@[p + i] < 0x1_0000_0000_0000_0000);
        }
        let byte = b[p + i] as u64;
        assert(byte == b@[p + i]);
        v = v * 256 + byte;
    }
    v
}

pub proof fn lemma_pow256_mono(a: nat, b: nat)
    requires
        a <= b,
    ensures
        pow256(a) <= pow256(b),
    decreases b,
{
    if a < b {
        lemma_pow256_mono(a, (b - 1) as nat);
    }
}

/// The pairs held in a pair file, or none when its length is not a whole
/// number of records.
pub fn decode_pair_file(b: &[u8]) -> (r: Option<Vec<(u64, u64)>>)
    ensures
        b@.len() % 16 != 0 ==> r is None,
        b@.len() % 16 == 0 ==> (r matches Some(v) && v@ == decode_pairs(b@)),
{
    let len = b.len();
    if len % RECORD != 0 {
        return None;
    }
    let mut out: Vec<(u64, u64)> = Vec::new();
    let mut p: usize = 0;
    assert(b@.subrange(0, len as int) =~= b@);
    while p < len
        invariant
            len == b@.len(),
            len % 16 == 0,
            p <= len,
            p % 16 == 0,
            out@ + decode_pairs(b@.subrange(p as int, len as int)) == decode_pairs(b@),
        decreases len - p,
    {
        let ghost rest = b@.subrange(p as int, len as int);
        assert(rest.subrange(0, 8) =~= b@.subrange(p as int, p + 8));
        assert(rest.subrange(8, 16) =~= b@.subrange(p + 8, p + 16));
        assert(rest.subrange(16, rest.len() as int) =~= b@.subrange(p + 16, len as int));
        let k = read_word(b, p);
        let v = read_word(b, p + 8);
        proof {
            crate::num::lemma_le_u64_bound(b@.subrange(p as int, p + 8));
            crate::num::lemma_le_u64_bound(b@.subrange(p + 8, p + 16));
        }
        let ghost pre = out@;
        out.push((k, v));
        assert(out@ + decode_pairs(b@.subrange(p + 16, len as int)) =~= pre + decode_pairs(rest));
        p = p + RECORD;
    }
    assert(decode_pairs(b@.subrange(p as int, len as int)) =~= Seq::<(u64, u64)>::empty());
    assert(out@ + Seq::<(u64, u64)>::empty() =~= out@);
    Some(out)
}

pub open spec fn is_hex_digit(c: u8) -> bool {
    (48 <= c <= 57) || (97 <= c <= 102) || (65 <= c <= 70)
}

pub open spec fn hex_digit_value(c: u8) -> nat {
    if 48 <= c <= 57 {
        (c - 48) as nat
    } else if 97 <= c <= 102 {
        (c - 87) as nat
    } else {
        (c - 55) as nat
    }
}

/// The number written by hexadecimal digits, most significant first.
pub open spec fn hex_value(s: Seq<u8>) -> nat
    decreases s.len(),
{
    if s.len() == 0 {
        0
    } else {
        hex_value(s.drop_last()) * 16 + hex_digit_value(s.last())
    }
}

/// A nonempty run of hexadecimal digits whose value fits in 64 bits.
pub open spec fn parse_hex(s: Seq<u8>) -> Option<u64> {
    if s.len() > 0 && (forall|i: int| 0 <= i < s.len() ==> is_hex_digit(#[trigger] s[i]))
        && hex_value(s) <= u64::MAX {
        Some(hex_value(s) as u64)
    } else {
        None
    }
}

/// Lowercase hexadecimal digits of `n`, without leading zeros.
pub open spec fn hex_text(n: nat) -> Seq<u8>
    decreases n,
{
    if n < 16 {
        seq![hex_char(n)]
    } else {
        hex_text(n / 16).push(hex_char(n % 16))
    }
}

pub open spec fn hex_char(d: nat) -> u8 {
    if d < 10 {
        (48 + d) as u8
    } else {
        (87 + d) as u8
    }
}

/// Position of the first `c` in `s`.
pub open spec fn find_byte(s: Seq<u8>, c: u8) -> Option<int>
    decreases s.len(),
{
    if s.len() == 0 {
        None
    } else if s[0] == c {
        Some(0)
    } else {
        match find_byte(s.drop_first(), c) {
            Some(i) => Some(i + 1),
            None => None,
        }
    }
}

pub open spec fn is_space(c: u8) -> bool {
    c == 32 || (9 <= c <= 13)
}

/// `s` without leading and trailing ASCII whitespace.
pub open spec fn trim(s: Seq<u8>) -> Seq<u8>
    decreases s.len(),
{
    if s.len() > 0 && is_space(s[0]) {
        trim(s.drop_first())
    } else if s.len() > 0 && is_space(s.last()) {
        trim(s.drop_last())
    } else {
        s
    }
}

/// The module a line describes: `HEXSTART-HEXEND NAME`, the name trimmed.
pub open spec fn parse_module_line(l: Seq<u8>) -> Option<ModuleView> {
    match find_byte(l, 32) {
        None => None,
        Some(sp) => {
            let range = l.subrange(0, sp);
            match find_byte(range, 45) {
                None => None,
                Some(d) => match (parse_hex(range.subrange(0, d)), parse_hex(range.subrange(d + 1, range.len() as int))) {
                    (Some(start), Some(end)) => Some((start, end, trim(l.subrange(sp + 1, l.len() as int)))),
                    _ => None,
                },
            }
        },
    }
}

/// A line without its terminating carriage return, if it has one.
pub open spec fn strip_cr(l: Seq<u8>) -> Seq<u8> {
    if l.len() > 0 && l.last() == 13 {
        l.drop_last()
    } else {
        l
    }
}

/// The modules of a module file, in order; lines that do not parse are skipped.
pub open spec fn parse_modules(t: Seq<u8>) -> Seq<ModuleView>
    decreases t.len(),
{
    if t.len() == 0 {
        Seq::empty()
    } else {
        let p = match find_byte(t, 10) {
            Some(p) => p,
            None => t.len() as int,
        };
        if 0 <= p <= t.len() {
            let rest = if p < t.len() { t.subrange(p + 1, t.len() as int) } else { Seq::empty() };
            let here = match parse_module_line(strip_cr(t.subrange(0, p))) {
                Some(m) => seq![m],
                None => Seq::empty(),
            };
            here + parse_modules(rest)
        } else {
            Seq::empty()
        }
    }
}

/// The line written for a module.
pub open spec fn module_line(m: ModuleView) -> Seq<u8> {
    hex_text(m.0 as nat) + seq![45u8] + hex_text(m.1 as nat) + seq![32u8] + m.2 + seq![10u8]
}

pub proof fn lemma_find_byte(s: Seq<u8>, c: u8)
    ensures
        find_byte(s, c) matches Some(i) ==> 0 <= i < s.len() && s[i] == c && forall|j: int|
            0 <= j < i ==> s[j] != c,
        find_byte(s, c) is None ==> forall|j: int| 0 <= j < s.len() ==> s[j] != c,
    decreases s.len(),
{
    if s.len() > 0 {
        let t = s.drop_first();
        lemma_find_byte(t, c);
        if s[0] != c {
            match find_byte(t, c) {
                Some(i) => {
                    assert forall|j: int| 0 <= j < i + 1 implies s[j] != c by {
                        if j > 0 {
                            assert(s[j] == t[j - 1]);
                        }
                    }
                    assert(s[i + 1] == t[i]);
                },
                None => {
                    assert forall|j: int| 0 <= j < s.len() implies s[j] != c by {
                        if j > 0 {
                            assert(s[j] == t[j - 1]);
                        }
                    }
                },
            }
        }
    }
}

/// Position of the first `c` in `t[lo..hi]`, relative to `lo`.
pub(crate) fn find_in(t: &[u8], lo: usize, hi: usize, c: u8) -> (r: Option<usize>)
    requires
        lo <= hi <= t@.len(),
    ensures
        r matches Some(i) ==> find_byte(t@.subrange(lo as int, hi as int), c) == Some(i as int),
        r is None ==> find_byte(t@.subrange(lo as int, hi as int), c) is None,
{
    let mut i = lo;
    while i < hi
        invariant
            lo <= i <= hi <= t@.len(),
            forall|j: int| lo <= j < i ==> t@[j] != c,
        decreases hi - i,
    {
        if t[i] == c {
            proof {
                let s = t@.subrange(lo as int, hi as int);
                lemma_find_byte(s, c);
                if let Some(k) = find_byte(s, c) {
                    if k < i - lo {
                        assert(s[k] == t@[lo + k]);
                    }
                    if k > i - lo {
                        assert(s[i - lo] == t@[i as int]);
                    }
                } else {
                    assert(s[i - lo] == t@[i as int]);
                }
            }
            return Some(i - lo);
        }
        i = i + 1;
    }
    proof {
        let s = t@.subrange(lo as int, hi as int);
        lemma_find_byte(s, c);
        if let Some(k) = find_byte(s, c) {
            assert(s[k] == t@[lo + k]);
        }
    }
    None
}

pub proof fn lemma_hex_value_grows(s: Seq<u8>, d: u8)
    ensures
        hex_value(s.push(d)) >= hex_value(s),
        hex_value(s.push(d)) == hex_value(s) * 16 + hex_digit_value(d),
{
    assert(s.push(d).drop_last() =~= s);
}

pub proof fn lemma_hex_value_prefix(s: Seq<u8>, i: int, j: int)
    requires
        0 <= i <= j <= s.len(),
    ensures
        hex_value(s.subrange(0, j)) >= hex_value(s.subrange(0, i)),
    decreases j - i,
{
    if i < j {
        lemma_hex_value_prefix(s, i, j - 1);
        lemma_hex_value_grows(s.subrange(0, j - 1), s[j - 1]);
        assert(s.subrange(0, j) =~= s.subrange(0, j - 1).push(s[j - 1]));
    }
}

/// The hexadecimal number written in `t[lo..hi]`, if it is one that fits.
pub(crate) fn parse_hex_in(t: &[u8], lo: usize, hi: usize) -> (r: Option<u64>)
    requires
        lo <= hi <= t@.len(),
    ensures
        r == parse_hex(t@.subrange(lo as int, hi as int)),
{
    let ghost s = t@.subrange(lo as int, hi as int);
    if lo == hi {
        return None;
    }
    let mut acc: u64 = 0;
    let mut i = lo;
    assert(t@.subrange(lo as int, lo as int) =~= Seq::<u8>::empty());
    while i < hi
        invariant
            lo <= i <= hi <= t@.len(),
            s == t@.subrange(lo as int, hi as int),
            acc == hex_value(t@.subrange(lo as int, i as int)),
            forall|j: int| lo <= j < i ==> is_hex_digit(#[trigger] t@[j]),
        decreases hi - i,
    {
        let c = t[i];
        let ghost pre = t@.subrange(lo as int, i as int);
        assert(t@.subrange(lo as int, i + 1) =~= pre.push(c));
        proof {
            lemma_hex_value_grows(pre, c);
        }
        let d: u64;
        if 48 <= c && c <= 57 {
            d = (c - 48) as u64;
        } else if 97 <= c && c <= 102 {
            d = (c - 87) as u64;
        } else if 65 <= c && c <= 70 {
            d = (c - 55) as u64;
        } else {
            proof {
                assert(!is_hex_digit(s[i - lo]));
            }
            return None;
        }
        if acc > (u64::MAX - d) / 16 {
            proof {
                assert(hex_value(pre.push(c)) > u64::MAX);
                lemma_hex_value_prefix(s, i + 1 - lo, s.len() as int);
                assert(s.subrange(0, i + 1 - lo) =~= pre.push(c));
                assert(s.subrange(0, s.len() as int) =~= s);
            }
            return None;
        }
        acc = acc * 16 + d;
        i = i + 1;
    }
    assert(s =~= t@.subrange(lo as int, i as int));
    Some(acc)
}

/// The bounds of `t[lo..hi]` with ASCII whitespace taken off both ends.
pub(crate) fn trim_in(t: &[u8], lo: usize, hi: usize) -> (r: (usize, usize))
    requires
        lo <= hi <= t@.len(),
    ensures
        lo <= r.0 <= r.1 <= hi,
        t@.subrange(r.0 as int, r.1 as int) == trim(t@.subrange(lo as int, hi as int)),
{
    let mut a = lo;
    let mut b = hi;
    while a < b && (t[a] == 32 || (9 <= t[a] && t[a] <= 13))
        invariant
            lo <= a <= b <= hi <= t@.len(),
            trim(t@.subrange(a as int, b as int)) == trim(t@.subrange(lo as int, hi as int)),
        decreases b - a,
    {
        assert(t@.subrange(a as int, b as int).drop_first() =~= t@.subrange(a + 1, b as int));
        a = a + 1;
    }
    while a < b && (t[b - 1] == 32 || (9 <= t[b - 1] && t[b - 1] <= 13))
        invariant
            lo <= a <= b <= hi <= t@.len(),
            a < b ==> !is_space(t@[a as int]),
            trim(t@.subrange(a as int, b as int)) == trim(t@.subrange(lo as int, hi as int)),
        decreases b - a,
    {
        assert(t@.subrange(a as int, b as int).drop_last() =~= t@.subrange(a as int, b - 1));
        b = b - 1;
    }
    (a, b)
}

/// The module described by the line `t[lo..hi]`, if it parses.
fn parse_module_in(t: &[u8], lo: usize, hi: usize) -> (r: Option<Module>)
    requires
        lo <= hi <= t@.len(),
    ensures
        r matches Some(m) ==> parse_module_line(t@.subrange(lo as int, hi as int)) == Some(m@),
        r is None ==> parse_module_line(t@.subrange(lo as int, hi as int)) is None,
{
    let ghost l = t@.subrange(lo as int, hi as int);
    proof {
        lemma_find_byte(l, 32);
    }
    let sp = match find_in(t, lo, hi, 32) {
        Some(sp) => sp,
        None => {
            return None;
        },
    };
    let ghost range = l.subrange(0, sp as int);
    assert(range =~= t@.subrange(lo as int, lo + sp));
    proof {
        lemma_find_byte(range, 45);
    }
    let d = match find_in(t, lo, lo + sp, 45) {
        Some(d) => d,
        None => {
            return None;
        },
    };
    assert(range.subrange(0, d as int) =~= t@.subrange(lo as int, lo + d));
    assert(range.subrange(d + 1, range.len() as int) =~= t@.subrange(lo + d + 1, lo + sp));
    let start = parse_hex_in(t, lo, lo + d);
    let end = parse_hex_in(t, lo + d + 1, lo + sp);
    match (start, end) {
        (Some(start), Some(end)) => {
            let (a, b) = trim_in(t, lo + sp + 1, hi);
            assert(l.subrange(sp + 1, l.len() as int) =~= t@.subrange(lo + sp + 1, hi as int));
            let mut name: Vec<u8> = Vec::new();
            let mut i = a;
            while i < b
                invariant
                    a <= i <= b <= t@.len(),
                    name@ == t@.subrange(a as int, i as int),
                decreases b - i,
            {
                name.push(t[i]);
                assert(name@ =~= t@.subrange(a as int, i + 1));
                i = i + 1;
            }
            Some(Module { start, end, name })
        },
        _ => None,
    }
}

/// The modules listed in a module file, in order; lines that do not parse are skipped.
pub fn decode_module_file(t: &[u8]) -> (r: Vec<Module>)
    ensures
        r@.map_values(|m: Module| m@) == parse_modules(t@),
{
    let n = t.len();
    let mut out: Vec<Module> = Vec::new();
    let mut p: usize = 0;
    assert(t@.subrange(0, n as int) =~= t@);
    while p < n
        invariant
            n == t@.len(),
            p <= n,
            out@.map_values(|m: Module| m@) + parse_modules(t@.subrange(p as int, n as int)) == parse_modules(t@),
        decreases n - p,
    {
        let ghost rest = t@.subrange(p as int, n as int);
        proof {
            lemma_find_byte(rest, 10);
        }
        let e = match find_in(t, p, n, 10) {
            Some(i) => p + i,
            None => n,
        };
        let mut stop = e;
        if stop > p && t[stop - 1] == 13 {
            stop = stop - 1;
        }
        assert(strip_cr(rest.subrange(0, e - p)) =~= t@.subrange(p as int, stop as int));
        let next = if e < n { e + 1 } else { n };
        let ghost tail = if e < n { rest.subrange(e - p + 1, rest.len() as int) } else { Seq::<u8>::empty() };
        assert(tail =~= t@.subrange(next as int, n as int));
        let ghost pre = out@.map_values(|m: Module| m@);
        match parse_module_in(t, p, stop) {
            Some(m) => {
                out.push(m);
                assert(out@.map_values(|m: Module| m@) =~= pre.push(m@));
            },
            None => {},
        }
        assert(out@.map_values(|m: Module| m@) + parse_modules(t@.subrange(next as int, n as int))
            =~= pre + parse_modules(rest));
        p = next;
    }
    assert(t@.subrange(p as int, n as int) =~= Seq::<u8>::empty());
    assert(out@.map_values(|m: Module| m@) + Seq::<ModuleView>::empty() =~= out@.map_values(|m: Module| m@));
    out
}

/// Lowercase hexadecimal digits of `n`.
pub fn hex_of(n: u64) -> (r: Vec<u8>)
    ensures
        r@ == hex_text(n as nat),
    decreases n,
{
    let d = n % 16;
    let c: u8 = if d < 10 { (48 + d) as u8 } else { (87 + d) as u8 };
    if n < 16 {
        let mut v: Vec<u8> = Vec::new();
        v.push(c);
        assert(v@ =~= seq![hex_char(n as nat)]);
        v
    } else {
        let mut v = hex_of(n / 16);
        v.push(c);
        v
    }
}

/// The module file for a list of modules: their lines, in order.
pub open spec fn module_file(ms: Seq<ModuleView>) -> Seq<u8>
    decreases ms.len(),
{
    if ms.len() == 0 {
        Seq::empty()
    } else {
        module_file(ms.drop_last()) + module_line(ms.last())
    }
}

/// The module file for a list of modules.
pub fn encode_module_file(ms: &Vec<Module>) -> (r: Vec<u8>)
    ensures
        r@ == module_file(ms@.map_values(|m: Module| m@)),
{
    let mut out: Vec<u8> = Vec::new();
    let ghost views = ms@.map_values(|m: Module| m@);
    let mut i: usize = 0;
    while i < ms.len()
        invariant
            i <= ms@.len(),
            views == ms@.map_values(|m: Module| m@),
            out@ == module_file(views.subrange(0, i as int)),
        decreases ms@.len() - i,
    {
        let m = &ms[i];
        let mut l = hex_of(m.start);
        l.push(45u8);
        let mut e = hex_of(m.end);
        l.append(&mut e);
        l.push(32u8);
        let mut name = m.name.clone();
        assert(name@ =~= m.name@);
        l.append(&mut name);
        l.push(10u8);
        assert(l@ =~= module_line(m@));
        out.append(&mut l);
        proof {
            let sub = views.subrange(0, i + 1);
            assert(sub.drop_last() =~= views.subrange(0, i as int));
        }
        i = i + 1;
    }
    assert(views.subrange(0, i as int) =~= views);
    out
}

pub open spec fn upper_hex_char(d: nat) -> u8 {
    if d < 10 {
        (48 + d) as u8
    } else {
        (55 + d) as u8
    }
}

/// Two uppercase hexadecimal digits for each byte.
pub open spec fn upper_hex(b: Seq<u8>) -> Seq<u8>
    decreases b.len(),
{
    if b.len() == 0 {
        Seq::empty()
    } else {
        upper_hex(b.drop_last()) + seq![upper_hex_char(b.last() as nat / 16), upper_hex_char(b.last() as nat % 16)]
    }
}

/// Bytes as uppercase hexadecimal, two digits each.
pub fn hex_encode(bytes: &[u8]) -> (r: Vec<u8>)
    ensures
        r@ == upper_hex(bytes@),
{
    let mut out: Vec<u8> = Vec::new();
    let mut i: usize = 0;
    while i < bytes.len()
        invariant
            i <= bytes@.len(),
            out@ == upper_hex(bytes@.subrange(0, i as int)),
        decreases bytes@.len() - i,
    {
        let b = bytes[i];
        let hi = b / 16;
        let lo = b % 16;
        let ghost pre = out@;
        out.push(if hi < 10 { 48 + hi } else { 55 + hi });
        out.push(if lo < 10 { 48 + lo } else { 55 + lo });
        assert(bytes@.subrange(0, i + 1).drop_last() =~= bytes@.subrange(0, i as int));
        assert(out@ =~= upper_hex(bytes@.subrange(0, i + 1)));
        i = i + 1;
    }
    assert(bytes@.subrange(0, i as int) =~= bytes@);
    out
}

} // verus!
