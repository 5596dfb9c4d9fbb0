//! Command-line values: addresses, address lists, offset windows and byte lists.

use vstd::prelude::*;
use vstd::string::StringSliceAdditionalSpecFns;
use crate::codec::{find_byte, find_in, lemma_find_byte, parse_hex, parse_hex_in, trim, trim_in};

verus! {

/// Why a command-line value was refused.
#[derive(Clone, Copy, Debug, PartialEq, Eq, Structural)]
pub enum ArgError {
    /// The value lacks a separator it needs.
    Format,
    /// A number in it is malformed or too large.
    Number,
}

/// `s` without any number of leading `0x`.
pub open spec fn strip_0x(s: Seq<u8>) -> Seq<u8>
    decreases s.len(),
{
    if s.len() >= 2 && s[0] == 48 && s[1] == 120 {
        strip_0x(s.subrange(2, s.len() as int))
    } else {
        s
    }
}

/// `s` without any number of leading `c`.
pub open spec fn strip_all(s: Seq<u8>, c: u8) -> Seq<u8>
    decreases s.len(),
{
    if s.len() >= 1 && s[0] == c {
        strip_all(s.drop_first(), c)
    } else {
        s
    }
}

/// A hexadecimal number with an optional leading `+`.
pub open spec fn parse_radix16(s: Seq<u8>) -> Option<u64> {
    if s.len() > 0 && s[0] == 43 {
        parse_hex(s.drop_first())
    } else {
        parse_hex(s)
    }
}

/// An address: hexadecimal, after any leading `0x`.
pub open spec fn parse_address(s: Seq<u8>) -> Option<u64> {
    parse_radix16(strip_0x(s))
}

/// Addresses separated by `-`.
pub open spec fn parse_address_list(s: Seq<u8>) -> Option<Seq<u64>>
    decreases s.len(),
{
    match find_byte(s, 45) {
        Some(p) => if 0 <= p < s.len() {
            match (parse_address(s.subrange(0, p)), parse_address_list(s.subrange(p + 1, s.len() as int))) {
                (Some(a), Some(rest)) => Some(seq![a] + rest),
                _ => None,
            }
        } else {
            None
        },
        None => match parse_address(s) {
            Some(a) => Some(seq![a]),
            None => None,
        },
    }
}

pub open spec fn dec_value(s: Seq<u8>) -> nat
    decreases s.len(),
{
    if s.len() == 0 {
        0
    } else {
        dec_value(s.drop_last()) * 10 + (s.last() - 48) as nat
    }
}

/// `s` without one leading `+`, if it has one.
pub open spec fn unsigned_part(s: Seq<u8>) -> Seq<u8> {
    if s.len() > 0 && s[0] == 43 {
        s.drop_first()
    } else {
        s
    }
}

/// A nonempty run of decimal digits whose value fits in 64 bits.
pub open spec fn parse_digits(d: Seq<u8>) -> Option<u64> {
    if d.len() > 0 && (forall|i: int| 0 <= i < d.len() ==> 48 <= #[trigger] d[i] <= 57) && dec_value(d) <= u64::MAX {
        Some(dec_value(d) as u64)
    } else {
        None
    }
}

/// A decimal number with an optional leading `+`, fitting in 64 bits.
pub open spec fn parse_dec(s: Seq<u8>) -> Option<u64> {
    parse_digits(unsigned_part(s))
}

/// A window `A:B` in decimal: how far above an address (`A`, after any
/// leading `-`) and how far below it (`B`, after any leading `+`) a pointer
/// may lie.
pub open spec fn parse_offset(s: Seq<u8>) -> Result<(u64, u64), ArgError> {
    match find_byte(s, 58) {
        None => Err(ArgError::Format),
        Some(p) => match (
            parse_dec(strip_all(s.subrange(0, p), 45)),
            parse_dec(strip_all(s.subrange(p + 1, s.len() as int), 43)),
        ) {
            (Some(a), Some(b)) => Ok((a, b)),
            _ => Err(ArgError::Number),
        },
    }
}

/// The text between the first `[` and the first `]` after it.
pub open spec fn between_brackets(s: Seq<u8>) -> Option<Seq<u8>> {
    match find_byte(s, 91) {
        None => None,
        Some(i) => {
            let rest = s.subrange(i + 1, s.len() as int);
            match find_byte(rest, 93) {
                None => None,
                Some(j) => Some(rest.subrange(0, j)),
            }
        },
    }
}

/// A byte: hexadecimal, trimmed, after any leading `0x`.
pub open spec fn parse_byte(s: Seq<u8>) -> Option<u8> {
    match parse_radix16(strip_0x(trim(s))) {
        Some(v) => if v <= 255 { Some(v as u8) } else { None },
        None => None,
    }
}

/// Bytes separated by `,`.
pub open spec fn parse_byte_list(s: Seq<u8>) -> Option<Seq<u8>>
    decreases s.len(),
{
    match find_byte(s, 44) {
        Some(p) => if 0 <= p < s.len() {
            match (parse_byte(s.subrange(0, p)), parse_byte_list(s.subrange(p + 1, s.len() as int))) {
                (Some(a), Some(rest)) => Some(seq![a] + rest),
                _ => None,
            }
        } else {
            None
        },
        None => match parse_byte(s) {
            Some(a) => Some(seq![a]),
            None => None,
        },
    }
}

/// Start of `t[lo..hi]` after any leading `0x`.
fn skip_0x(t: &[u8], lo: usize, hi: usize) -> (r: usize)
    requires
        lo <= hi <= t@.len(),
    ensures
        lo <= r <= hi,
        t@.subrange(r as int, hi as int) == strip_0x(t@.subrange(lo as int, hi as int)),
{
    let mut a = lo;
    while hi - a >= 2 && t[a] == 48 && t[a + 1] == 120
        invariant
            lo <= a <= hi <= t@.len(),
            strip_0x(t@.subrange(a as int, hi as int)) == strip_0x(t@.subrange(lo as int, hi as int)),
        decreases hi - a,
    {
        assert(t@.subrange(a as int, hi as int).subrange(2, hi - a) =~= t@.subrange(a + 2, hi as int));
        a = a + 2;
    }
    a
}

/// Start of `t[lo..hi]` after any leading `c`.
fn skip_all(t: &[u8], lo: usize, hi: usize, c: u8) -> (r: usize)
    requires
        lo <= hi <= t@.len(),
    ensures
        lo <= r <= hi,
        t@.subrange(r as int, hi as int) == strip_all(t@.subrange(lo as int, hi as int), c),
{
    let mut a = lo;
    while a < hi && t[a] == c
        invariant
            lo <= a <= hi <= t@.len(),
            strip_all(t@.subrange(a as int, hi as int), c) == strip_all(t@.subrange(lo as int, hi as int), c),
        decreases hi - a,
    {
        assert(t@.subrange(a as int, hi as int).drop_first() =~= t@.subrange(a + 1, hi as int));
        a = a + 1;
    }
    a
}

pub(crate) fn radix16_in(t: &[u8], lo: usize, hi: usize) -> (r: Option<u64>)
    requires
        lo <= hi <= t@.len(),
    ensures
        r == parse_radix16(t@.subrange(lo as int, hi as int)),
{
    if lo < hi && t[lo] == 43 {
        assert(t@.subrange(lo as int, hi as int).drop_first() =~= t@.subrange(lo + 1, hi as int));
        parse_hex_in(t, lo + 1, hi)
    } else {
        parse_hex_in(t, lo, hi)
    }
}

fn address_in(t: &[u8], lo: usize, hi: usize) -> (r: Option<u64>)
    requires
        lo <= hi <= t@.len(),
    ensures
        r == parse_address(t@.subrange(lo as int, hi as int)),
{
    let a = skip_0x(t, lo, hi);
    radix16_in(t, a, hi)
}

pub proof fn lemma_dec_value_grows(s: Seq<u8>, d: u8)
    ensures
        dec_value(s.push(d)) == dec_value(s) * 10 + (d - 48) as nat,
{
    assert(s.push(d).drop_last() =~= s);
}

pub proof fn lemma_dec_value_prefix(s: Seq<u8>, i: int, j: int)
    requires
        0 <= i <= j <= s.len(),
        forall|q: int| 0 <= q < s.len() ==> 48 <= #[trigger] s[q] <= 57,
    ensures
        dec_value(s.subrange(0, j)) >= dec_value(s.subrange(0, i)),
    decreases j - i,
{
    if i < j {
        lemma_dec_value_prefix(s, i, j - 1);
        lemma_dec_value_grows(s.subrange(0, j - 1), s[j - 1]);
        assert(s.subrange(0, j) =~= s.subrange(0, j - 1).push(s[j - 1]));
    }
}

pub(crate) fn dec_in(t: &[u8], lo: usize, hi: usize) -> (r: Option<u64>)
    requires
        lo <= hi <= t@.len(),
    ensures
        r == parse_dec(t@.subrange(lo as int, hi as int)),
{
    let ghost s = t@.subrange(lo as int, hi as int);
    let mut a = lo;
    if lo < hi && t[lo] == 43 {
        a = lo + 1;
    }
    let ghost d = t@.subrange(a as int, hi as int);
    assert(d =~= unsigned_part(s));
    if a == hi {
        return None;
    }
    let mut acc: u64 = 0;
    let mut i = a;
    assert(t@.subrange(a as int, a as int) =~= Seq::<u8>::empty());
    while i < hi
        invariant
            lo <= a <= i <= hi <= t@.len(),
            d == t@.subrange(a as int, hi as int),
            d == unsigned_part(t@.subrange(lo as int, hi as int)),
            acc == dec_value(t@.subrange(a as int, i as int)),
            forall|q: int| a <= q < i ==> 48 <= #[trigger] t@[q] <= 57,
        decreases hi - i,
    {
        let c = t[i];
        let ghost pre = t@.subrange(a as int, i as int);
        assert(t@.subrange(a as int, i + 1) =~= pre.push(c));
        if c < 48 || c > 57 {
            assert(!(48 <= d[i - a] <= 57));
            assert(parse_digits(d) is None);
            return None;
        }
        proof {
            lemma_dec_value_grows(pre, c);
        }
        let v = (c - 48) as u64;
        if acc > (u64::MAX - v) / 10 {
            proof {
                assert(dec_value(pre.push(c)) > u64::MAX);
                if forall|q: int| 0 <= q < d.len() ==> 48 <= #[trigger] d[q] <= 57 {
                    lemma_dec_value_prefix(d, i + 1 - a, d.len() as int);
                    assert(d.subrange(0, i + 1 - a) =~= pre.push(c));
                    assert(d.subrange(0, d.len() as int) =~= d);
                }
                assert(parse_digits(d) is None);
            }
            return None;
        }
        acc = acc * 10 + v;
        i = i + 1;
    }
    assert(d =~= t@.subrange(a as int, i as int));
    Some(acc)
}

/// A target address.
pub struct Address(pub u64);

impl Address {
    /// Parses hexadecimal, after any leading `0x`.
    pub fn from_arg_value(value: &str) -> (r: Result<Address, ArgError>)
        ensures
            parse_address(value.spec_bytes()) matches Some(a) ==> (r matches Ok(x) && x.0 == a),
            parse_address(value.spec_bytes()) is None ==> r == Err::<Address, ArgError>(ArgError::Number),
    {
        let t = value.as_bytes();
        assert(t@.subrange(0, t@.len() as int) =~= t@);
        match address_in(t, 0, t.len()) {
            Some(a) => Ok(Address(a)),
            None => Err(ArgError::Number),
        }
    }
}

/// A list of addresses.
pub struct AddressList(pub Vec<u64>);

impl AddressList {
    /// Parses addresses separated by `-`.
    pub fn from_arg_value(value: &str) -> (r: Result<AddressList, ArgError>)
        ensures
            parse_address_list(value.spec_bytes()) matches Some(v) ==> (r matches Ok(x) && x.0@ == v),
            parse_address_list(value.spec_bytes()) is None ==> r == Err::<AddressList, ArgError>(ArgError::Number),
    {
        let t = value.as_bytes();
        let n = t.len();
        let mut out: Vec<u64> = Vec::new();
        let mut p: usize = 0;
        assert(t@.subrange(0, n as int) =~= t@);
        loop
            invariant
                n == t@.len(),
                t@ == value.spec_bytes(),
                p <= n,
                parse_address_list(t@) == (match parse_address_list(t@.subrange(p as int, n as int)) {
                    Some(rest) => Some(out@ + rest),
                    None => None::<Seq<u64>>,
                }),
            decreases n - p,
        {
            let ghost rest = t@.subrange(p as int, n as int);
            proof {
                lemma_find_byte(rest, 45);
            }
            match find_in(t, p, n, 45) {
                Some(i) => {
                    assert(rest.subrange(0, i as int) =~= t@.subrange(p as int, p + i));
                    assert(rest.subrange(i + 1, rest.len() as int) =~= t@.subrange(p + i + 1, n as int));
                    match address_in(t, p, p + i) {
                        Some(a) => {
                            let ghost before = out@;
                            out.push(a);
                            proof {
                                match parse_address_list(t@.subrange(p + i + 1, n as int)) {
                                    Some(r2) => {
                                        assert(before + (seq![a] + r2) =~= out@ + r2);
                                    },
                                    None => {},
                                }
                            }
                            p = p + i + 1;
                        },
                        None => {
                            assert(parse_address_list(rest) is None);
                            return Err(ArgError::Number);
                        },
                    }
                },
                None => {
                    match address_in(t, p, n) {
                        Some(a) => {
                            let ghost before = out@;
                            out.push(a);
                            assert(before + seq![a] =~= out@);
                            return Ok(AddressList(out));
                        },
                        None => {
                            assert(parse_address_list(rest) is None);
                            return Err(ArgError::Number);
                        },
                    }
                },
            }
        }
    }
}

/// An offset window: how far above and how far below an address.
pub struct Offset(pub (u64, u64));

impl Offset {
    /// Parses `A:B` in decimal.
    pub fn from_arg_value(value: &str) -> (r: Result<Offset, ArgError>)
        ensures
            parse_offset(value.spec_bytes()) matches Ok(w) ==> (r matches Ok(x) && x.0 == w),
            parse_offset(value.spec_bytes()) matches Err(e) ==> r == Err::<Offset, ArgError>(e),
    {
        let t = value.as_bytes();
        let n = t.len();
        proof {
            lemma_find_byte(t@, 58);
        }
        assert(t@.subrange(0, n as int) =~= t@);
        let p = match find_in(t, 0, n, 58) {
            Some(p) => p,
            None => {
                return Err(ArgError::Format);
            },
        };
        let a = skip_all(t, 0, p, 45);
        let b = skip_all(t, p + 1, n, 43);
        match (dec_in(t, a, p), dec_in(t, b, n)) {
            (Some(x), Some(y)) => Ok(Offset((x, y))),
            _ => Err(ArgError::Number),
        }
    }
}

/// Bytes to write.
pub struct WVecU8(pub Vec<u8>);

/// The text between the first `[` of `value` and the first `]` after it.
pub fn get_content_between_parentheses(value: &[u8]) -> (r: Option<(usize, usize)>)
    ensures
        between_brackets(value@) matches Some(c) ==> (r matches Some((a, b)) && a <= b <= value@.len()
            && value@.subrange(a as int, b as int) == c),
        between_brackets(value@) is None ==> r is None,
{
    let n = value.len();
    proof {
        lemma_find_byte(value@, 91);
    }
    assert(value@.subrange(0, n as int) =~= value@);
    let i = match find_in(value, 0, n, 91) {
        Some(i) => i,
        None => {
            return None;
        },
    };
    let ghost rest = value@.subrange(i + 1, n as int);
    proof {
        lemma_find_byte(rest, 93);
    }
    let j = match find_in(value, i + 1, n, 93) {
        Some(j) => j,
        None => {
            return None;
        },
    };
    assert(rest.subrange(0, j as int) =~= value@.subrange(i + 1, i + 1 + j));
    Some((i + 1, i + 1 + j))
}

fn byte_in(t: &[u8], lo: usize, hi: usize) -> (r: Option<u8>)
    requires
        lo <= hi <= t@.len(),
    ensures
        r == parse_byte(t@.subrange(lo as int, hi as int)),
{
    let (a, b) = trim_in(t, lo, hi);
    let c = skip_0x(t, a, b);
    match radix16_in(t, c, b) {
        Some(v) => if v <= 255 {
            Some(v as u8)
        } else {
            None
        },
        None => None,
    }
}

impl WVecU8 {
    /// Parses `[B1, B2, ...]`: hexadecimal bytes between brackets, separated by `,`.
    pub fn from_arg_value(value: &str) -> (r: Result<WVecU8, ArgError>)
        ensures
            between_brackets(trim(value.spec_bytes())) is None ==> r == Err::<WVecU8, ArgError>(ArgError::Format),
            between_brackets(trim(value.spec_bytes())) matches Some(c) ==> (match parse_byte_list(c) {
                Some(v) => r matches Ok(x) && x.0@ == v,
                None => r == Err::<WVecU8, ArgError>(ArgError::Number),
            }),
    {
        let t = value.as_bytes();
        assert(t@.subrange(0, t@.len() as int) =~= t@);
        let (a, b) = trim_in(t, 0, t.len());
        let ghost tt = t@.subrange(a as int, b as int);
        proof {
            lemma_find_byte(tt, 91);
        }
        let i = match find_in(t, a, b, 91) {
            Some(i) => a + i,
            None => {
                return Err(ArgError::Format);
            },
        };
        let ghost rest = tt.subrange(i - a + 1, tt.len() as int);
        assert(rest =~= t@.subrange(i + 1, b as int));
        proof {
            lemma_find_byte(rest, 93);
        }
        let e = match find_in(t, i + 1, b, 93) {
            Some(j) => i + 1 + j,
            None => {
                return Err(ArgError::Format);
            },
        };
        assert(rest.subrange(0, e - i - 1) =~= t@.subrange(i + 1, e as int));
        assert(trim(value.spec_bytes()) == tt);
        assert(between_brackets(tt) == Some(t@.subrange(i + 1, e as int)));
        let n = e;
        let mut out: Vec<u8> = Vec::new();
        let mut p: usize = i + 1;
        let ghost c = t@.subrange(i + 1, e as int);
        assert(t@.subrange(p as int, n as int) =~= c);
        loop
            invariant
                i + 1 <= p <= n <= t@.len(),
                between_brackets(trim(value.spec_bytes())) == Some(c),
                parse_byte_list(c) == (match parse_byte_list(t@.subrange(p as int, n as int)) {
                    Some(r2) => Some(out@ + r2),
                    None => None::<Seq<u8>>,
                }),
            decreases n - p,
        {
            let ghost sub = t@.subrange(p as int, n as int);
            proof {
                lemma_find_byte(sub, 44);
            }
            match find_in(t, p, n, 44) {
                Some(k) => {
                    assert(sub.subrange(0, k as int) =~= t@.subrange(p as int, p + k));
                    assert(sub.subrange(k + 1, sub.len() as int) =~= t@.subrange(p + k + 1, n as int));
                    match byte_in(t, p, p + k) {
                        Some(v) => {
                            let ghost before = out@;
                            out.push(v);
                            proof {
                                match parse_byte_list(t@.subrange(p + k + 1, n as int)) {
                                    Some(r2) => {
                                        assert(before + (seq![v] + r2) =~= out@ + r2);
                                    },
                                    None => {},
                                }
                            }
                            p = p + k + 1;
                        },
                        None => {
                            assert(parse_byte_list(sub) is None);
                            return Err(ArgError::Number);
                        },
                    }
                },
                None => {
                    match byte_in(t, p, n) {
                        Some(v) => {
                            let ghost before = out@;
                            out.push(v);
                            assert(before + seq![v] =~= out@);
                            return Ok(WVecU8(out));
                        },
                        None => {
                            assert(parse_byte_list(sub) is None);
                            return Err(ArgError::Number);
                        },
                    }
                },
            }
        }
    }
}

} // verus!
