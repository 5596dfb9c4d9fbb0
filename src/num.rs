//! Number encodings: little-endian words, hexadecimal and decimal text.

use vstd::prelude::*;

verus! {

/// Value of eight little-endian bytes.
pub open spec fn le_u64(b: Seq<u8>) -> nat
    decreases b.len(),
{
    if b.len() == 0 {
        0
    } else {
        b[0] as nat + 256 * le_u64(b.subrange(1, b.len() as int))
    }
}

pub open spec fn pow256(n: nat) -> nat
    decreases n,
{
    if n == 0 {
        1
    } else {
        256 * pow256((n - 1) as nat)
    }
}

/// The first `n` little-endian bytes of `v`.
pub open spec fn le_bytes_n(v: nat, n: nat) -> Seq<u8>
    decreases n,
{
    if n == 0 {
        Seq::empty()
    } else {
        seq![(v % 256) as u8] + le_bytes_n(v / 256, (n - 1) as nat)
    }
}

pub proof fn lemma_pow256_8()
    ensures
        pow256(8) == 0x1_0000_0000_0000_0000,
{
    reveal_with_fuel(pow256, 9);
}

pub proof fn lemma_le_bytes_len(v: nat, n: nat)
    ensures
        le_bytes_n(v, n).len() == n,
    decreases n,
{
    if n > 0 {
        lemma_le_bytes_len(v / 256, (n - 1) as nat);
    }
}

pub proof fn lemma_le_round_trip(v: nat, n: nat)
    requires
        v < pow256(n),
    ensures
        le_bytes_n(v, n).len() == n,
        le_u64(le_bytes_n(v, n)) == v,
    decreases n,
{
    if n > 0 {
        lemma_le_round_trip(v / 256, (n - 1) as nat);
        let b = le_bytes_n(v, n);
        assert(b.subrange(1, b.len() as int) =~= le_bytes_n(v / 256, (n - 1) as nat));
    }
}

pub proof fn lemma_le_u64_bound(b: Seq<u8>)
    ensures
        le_u64(b) < pow256(b.len()),
    decreases b.len(),
{
    if b.len() > 0 {
        lemma_le_u64_bound(b.subrange(1, b.len() as int));
    }
}

/// Decimal digits of `n`, most significant first, without leading zeros.
pub open spec fn dec_nat(n: nat) -> Seq<u8>
    decreases n,
{
    if n < 10 {
        seq![(48 + n) as u8]
    } else {
        dec_nat(n / 10).push((48 + n % 10) as u8)
    }
}

/// Decimal text of a signed value: a minus sign before the digits of its magnitude.
pub open spec fn dec_int(i: int) -> Seq<u8> {
    if i < 0 {
        seq![45u8] + dec_nat((-i) as nat)
    } else {
        dec_nat(i as nat)
    }
}

/// Relies on itoa::Buffer::format for u64: the decimal representation of `n`.
#[verifier::external_body]
pub(crate) fn decimal_u64(n: u64) -> (r: Vec<u8>)
    ensures
        r@ == dec_nat(n as nat),
{
    let mut buf = itoa::Buffer::new();
    buf.format(n).as_bytes().to_vec()
}

/// Relies on itoa::Buffer::format for i64: the decimal representation of `i`,
/// with a leading `-` when negative.
#[verifier::external_body]
pub(crate) fn decimal_i64(i: i64) -> (r: Vec<u8>)
    ensures
        r@ == dec_int(i as int),
{
    let mut buf = itoa::Buffer::new();
    buf.format(i).as_bytes().to_vec()
}

} // verus!
