//! Little-endian integers in byte buffers.

use vstd::prelude::*;
use vstd::arithmetic::power2::*;
use crate::numeral::{le_bytes, le_value, lemma_le_value_bound, lemma_pow2_8};

verus! {

/// The unsigned number in `n` bytes at `off`.
pub open spec fn le_at(s: Seq<u8>, off: int, n: int) -> nat {
    le_value(s.subrange(off, off + n))
}

/// Two's complement: the signed reading of a 64-bit pattern.
pub open spec fn as_signed(u: nat) -> i64 {
    if u < 0x8000_0000_0000_0000 {
        u as i64
    } else {
        (u - 0x1_0000_0000_0000_0000) as i64
    }
}

/// Two's complement: the 64-bit pattern of a signed number.
pub open spec fn as_unsigned(v: i64) -> nat {
    if v >= 0 {
        v as nat
    } else {
        (v + 0x1_0000_0000_0000_0000) as nat
    }
}

pub proof fn lemma_signed_round_trip(v: i64)
    ensures
        as_signed(as_unsigned(v)) == v,
        as_unsigned(v) < 0x1_0000_0000_0000_0000,
{
}

pub fn to_signed(u: u64) -> (r: i64)
    ensures
        r == as_signed(u as nat),
{
    if u < 0x8000_0000_0000_0000 {
        u as i64
    } else {
        -((u64::MAX - u) as i64) - 1
    }
}

pub fn to_unsigned(v: i64) -> (r: u64)
    ensures
        r == as_unsigned(v),
{
    if v >= 0 {
        v as u64
    } else {
        u64::MAX - ((-(v + 1)) as u64)
    }
}

/// Reads `n` bytes at `off` as one number.
pub fn read_le(s: &[u8], off: usize, n: usize) -> (r: u64)
    requires
        n <= 8,
        off + n <= s@.len(),
    ensures
        r == le_at(s@, off as int, n as int),
        r < pow2(8 * n as nat),
{
    let mut acc: u64 = 0;
    let mut k: usize = n;
    proof {
        lemma_pow2_8();
    }
    while k > 0
        invariant
            k <= n <= 8,
            off + n <= s.len(),
            acc == le_value(s@.subrange(off + k, off + n)),
            acc < pow2((8 * (n - k)) as nat),
        decreases k,
    {
        k = k - 1;
        proof {
            lemma_pow2_8();
            let t = s@.subrange(off + k, off + n);
            assert(t.drop_first() =~= s@.subrange(off + k + 1, off + n));
            lemma_le_value_bound(t);
            lemma_pow2_monotone((8 * (n - k)) as nat, 64);
        }
        acc = s[off + k] as u64 + 256 * acc;
    }
    acc
}

pub proof fn lemma_pow2_monotone(a: nat, b: nat)
    requires
        a <= b,
    ensures
        pow2(a) <= pow2(b),
{
    if a < b {
        lemma_pow2_strictly_increases(a, b);
    }
}

pub fn read_u32(s: &[u8], off: usize) -> (r: u32)
    requires
        off + 4 <= s@.len(),
    ensures
        r == le_at(s@, off as int, 4),
{
    let v = read_le(s, off, 4);
    proof {
        lemma_pow2_8();
    }
    v as u32
}

pub fn read_i64(s: &[u8], off: usize) -> (r: i64)
    requires
        off + 8 <= s@.len(),
    ensures
        r == as_signed(le_at(s@, off as int, 8)),
{
    to_signed(read_le(s, off, 8))
}

/// Appends the `n` low bytes of `v`.
pub fn push_le(out: &mut Vec<u8>, v: u64, n: usize)
    requires
        n <= 8,
    ensures
        final(out)@ == old(out)@ + le_bytes(v as nat, n as nat),
{
    let mut rest: u64 = v;
    let mut k: usize = 0;
    while k < n
        invariant
            k <= n,
            out@ + le_bytes(rest as nat, (n - k) as nat) == old(out)@ + le_bytes(v as nat, n as nat),
        decreases n - k,
    {
        let ghost before = out@;
        let b = (rest % 256) as u8;
        out.push(b);
        proof {
            assert(out@ + le_bytes(rest as nat / 256, (n - k - 1) as nat) =~= before + le_bytes(
                rest as nat,
                (n - k) as nat,
            ));
        }
        rest = rest / 256;
        k = k + 1;
    }
    proof {
        assert(out@ + le_bytes(rest as nat, 0) =~= out@);
    }
}

pub fn push_i64(out: &mut Vec<u8>, v: i64)
    ensures
        final(out)@ == old(out)@ + le_bytes(as_unsigned(v), 8),
{
    push_le(out, to_unsigned(v), 8);
}

/// Appends a run of bytes.
pub fn push_bytes(out: &mut Vec<u8>, s: &[u8])
    ensures
        final(out)@ == old(out)@ + s@,
{
    let mut i: usize = 0;
    while i < s.len()
        invariant
            i <= s@.len(),
            out@ == old(out)@ + s@.take(i as int),
        decreases s@.len() - i,
    {
        out.push(s[i]);
        i = i + 1;
        proof {
            assert(old(out)@ + s@.take(i as int) =~= (old(out)@ + s@.take(i as int - 1)).push(
                s@[i as int - 1],
            ));
        }
    }
    proof {
        assert(s@.take(s@.len() as int) =~= s@);
    }
}

/// A copy of the bytes from `off` to `end`.
pub fn copy_range(s: &[u8], off: usize, end: usize) -> (r: Vec<u8>)
    requires
        off <= end <= s@.len(),
    ensures
        r@ == s@.subrange(off as int, end as int),
{
    let mut r: Vec<u8> = Vec::with_capacity(end - off);
    let mut i: usize = off;
    while i < end
        invariant
            off <= i <= end <= s@.len(),
            r@ == s@.subrange(off as int, i as int),
        decreases end - i,
    {
        r.push(s[i]);
        i = i + 1;
        proof {
            assert(s@.subrange(off as int, i as int) =~= s@.subrange(off as int, i as int - 1).push(
                s@[i as int - 1],
            ));
        }
    }
    r
}

/// A copy of a run of bytes.
pub fn copy_bytes(s: &[u8]) -> (r: Vec<u8>)
    ensures
        r@ == s@,
{
    let r = copy_range(s, 0, s.len());
    proof {
        assert(s@.subrange(0, s@.len() as int) =~= s@);
    }
    r
}

/// Whether two runs of bytes are equal.
pub fn same_bytes(a: &[u8], b: &[u8]) -> (r: bool)
    ensures
        r == (a@ == b@),
{
    if a.len() != b.len() {
        return false;
    }
    let mut i: usize = 0;
    while i < a.len()
        invariant
            i <= a@.len(),
            a@.len() == b@.len(),
            forall|k: int| 0 <= k < i ==> a@[k] == b@[k],
        decreases a@.len() - i,
    {
        if a[i] != b[i] {
            return false;
        }
        i = i + 1;
    }
    proof {
        assert(a@ =~= b@);
    }
    true
}

} // verus!
