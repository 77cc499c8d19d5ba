//! Positional numerals: what a run of bytes, or a run of packed bit fields,
//! is as one natural number.

use vstd::prelude::*;
use vstd::arithmetic::power2::*;
use vstd::arithmetic::div_mod::*;
use vstd::arithmetic::mul::*;

verus! {

/// The number that a little-endian run of bytes stands for.
pub open spec fn le_value(s: Seq<u8>) -> nat
    decreases s.len(),
{
    if s.len() == 0 {
        0
    } else {
        s[0] as nat + 256 * le_value(s.drop_first())
    }
}

/// The `n` low bytes of `v`, least significant first.
pub open spec fn le_bytes(v: nat, n: nat) -> Seq<u8>
    decreases n,
{
    if n == 0 {
        Seq::empty()
    } else {
        seq![(v % 256) as u8] + le_bytes(v / 256, (n - 1) as nat)
    }
}

/// The `i`-th field of `width` bits in `v`, counted from the low end.
pub open spec fn field(v: nat, width: nat, i: nat) -> nat {
    (v / pow2(i * width)) % pow2(width)
}

/// Fields of `width` bits each, laid end to end from the low end.
pub open spec fn packed(fields: Seq<u64>, width: nat) -> nat
    decreases fields.len(),
{
    if fields.len() == 0 {
        0
    } else {
        fields[0] as nat + pow2(width) * packed(fields.drop_first(), width)
    }
}

/// Every field fits in `width` bits.
pub open spec fn fields_fit(fields: Seq<u64>, width: nat) -> bool {
    forall|i: int| 0 <= i < fields.len() ==> (#[trigger] fields[i] as nat) < pow2(width)
}

/// The bytes that hold `n` fields of `width` bits: the least number of whole bytes.
pub open spec fn packed_len(n: nat, width: nat) -> nat {
    ((n * width + 7) / 8) as nat
}

pub proof fn lemma_pow2_8()
    ensures
        pow2(8) == 256,
        pow2(0) == 1,
        pow2(32) == 0x1_0000_0000,
        pow2(64) == 0x1_0000_0000_0000_0000,
        pow2(16) == 0x1_0000,
{
    lemma2_to64();
    lemma2_to64_rest();
}

pub proof fn lemma_le_bytes_len(v: nat, n: nat)
    ensures
        le_bytes(v, n).len() == n,
    decreases n,
{
    if n > 0 {
        lemma_le_bytes_len(v / 256, (n - 1) as nat);
    }
}

pub proof fn lemma_le_value_bound(s: Seq<u8>)
    ensures
        le_value(s) < pow2(8 * s.len()),
    decreases s.len(),
{
    lemma_pow2_8();
    if s.len() > 0 {
        lemma_le_value_bound(s.drop_first());
        let m: nat = (8 * (s.len() - 1)) as nat;
        lemma_pow2_adds(8, m);
        assert(8 + m == 8 * s.len());
    }
}

pub proof fn lemma_le_value_of_bytes(v: nat, n: nat)
    requires
        v < pow2(8 * n),
    ensures
        le_value(le_bytes(v, n)) == v,
        le_bytes(v, n).len() == n,
    decreases n,
{
    lemma_pow2_8();
    lemma_le_bytes_len(v, n);
    if n > 0 {
        let m: nat = (8 * (n - 1)) as nat;
        lemma_pow2_adds(8, m);
        assert(8 + m == 8 * n);
        assert(v / 256 < pow2(m)) by {
            lemma_fundamental_div_mod(v as int, 256);
            assert(256 * (v / 256) <= v);
        }
        lemma_le_value_of_bytes(v / 256, (n - 1) as nat);
        let s = le_bytes(v, n);
        assert(s.drop_first() =~= le_bytes(v / 256, (n - 1) as nat));
        lemma_fundamental_div_mod(v as int, 256);
    }
}

pub proof fn lemma_le_bytes_of_value(s: Seq<u8>)
    ensures
        le_bytes(le_value(s), s.len()) == s,
    decreases s.len(),
{
    if s.len() > 0 {
        let t = s.drop_first();
        lemma_le_bytes_of_value(t);
        let v = le_value(s);
        lemma_fundamental_div_mod_converse(v as int, 256, le_value(t) as int, s[0] as int);
        assert(le_bytes(v, s.len()) =~= s);
    } else {
        assert(le_bytes(le_value(s), s.len()) =~= s);
    }
}

pub proof fn lemma_le_value_append(a: Seq<u8>, b: Seq<u8>)
    ensures
        le_value(a + b) == le_value(a) + pow2(8 * a.len()) * le_value(b),
    decreases a.len(),
{
    lemma_pow2_8();
    if a.len() == 0 {
        assert(a + b =~= b);
        assert(pow2(0) * le_value(b) == le_value(b));
    } else {
        lemma_le_value_append(a.drop_first(), b);
        assert((a + b).drop_first() =~= a.drop_first() + b);
        let m: nat = (8 * (a.len() - 1)) as nat;
        lemma_pow2_adds(8, m);
        assert(8 + m == 8 * a.len());
        let x = le_value(a.drop_first()) as int;
        let p = pow2(m) as int;
        let y = le_value(b) as int;
        assert(256 * (x + p * y) == 256 * x + (256 * p) * y) by (nonlinear_arith);
    }
}

pub proof fn lemma_le_value_push(a: Seq<u8>, x: u8)
    ensures
        le_value(a.push(x)) == le_value(a) + pow2(8 * a.len()) * x as nat,
{
    assert(a.push(x) =~= a + seq![x]);
    lemma_le_value_append(a, seq![x]);
    assert(seq![x].drop_first() =~= Seq::<u8>::empty());
    assert(le_value(seq![x]) == x as nat) by {
        reveal_with_fuel(le_value, 2);
    }
}

pub proof fn lemma_packed_bound(fields: Seq<u64>, width: nat)
    requires
        fields_fit(fields, width),
    ensures
        packed(fields, width) < pow2(fields.len() * width),
    decreases fields.len(),
{
    lemma_pow2_8();
    if fields.len() == 0 {
        assert(fields.len() * width == 0) by (nonlinear_arith)
            requires fields.len() == 0,
        ;
    } else {
        let t = fields.drop_first();
        assert forall|i: int| 0 <= i < t.len() implies (#[trigger] t[i] as nat) < pow2(width) by {
            assert(t[i] == fields[i + 1]);
        }
        lemma_packed_bound(t, width);
        let m: nat = t.len() * width;
        lemma_pow2_adds(width, m);
        assert(width + m == fields.len() * width) by (nonlinear_arith)
            requires m == t.len() * width, fields.len() == t.len() + 1,
        ;
        let p = pow2(width) as int;
        let q = pow2(m) as int;
        let x = packed(t, width) as int;
        assert(p * x + p <= p * q) by (nonlinear_arith)
            requires x + 1 <= q, p >= 0,
        ;
    }
}

pub proof fn lemma_packed_push(fields: Seq<u64>, x: u64, width: nat)
    ensures
        packed(fields.push(x), width) == packed(fields, width) + pow2(fields.len() * width) * x as nat,
    decreases fields.len(),
{
    lemma_pow2_8();
    let g = fields.push(x);
    if fields.len() == 0 {
        assert(g.drop_first() =~= Seq::<u64>::empty());
        assert(packed(g.drop_first(), width) == 0);
        assert(fields.len() * width == 0) by (nonlinear_arith)
            requires fields.len() == 0,
        ;
    } else {
        let t = fields.drop_first();
        lemma_packed_push(t, x, width);
        assert(g.drop_first() =~= t.push(x));
        let m: nat = t.len() * width;
        lemma_pow2_adds(width, m);
        assert(width + m == fields.len() * width) by (nonlinear_arith)
            requires m == t.len() * width, fields.len() == t.len() + 1,
        ;
        let p = pow2(width) as int;
        let q = pow2(m) as int;
        let y = packed(t, width) as int;
        assert(p * (y + q * x) == p * y + (p * q) * x) by (nonlinear_arith);
    }
}

/// Reading field `i` of a packed numeral gives back field `i`.
pub proof fn lemma_field_of_packed(fields: Seq<u64>, width: nat, i: nat)
    requires
        fields_fit(fields, width),
        i < fields.len(),
    ensures
        field(packed(fields, width), width, i) == fields[i as int],
    decreases fields.len(),
{
    lemma_pow2_8();
    lemma_pow2_pos(width);
    let v = packed(fields, width);
    let t = fields.drop_first();
    let rest = packed(t, width);
    assert(v as int == rest as int * pow2(width) as int + fields[0] as int) by (nonlinear_arith)
        requires v as int == fields[0] as int + pow2(width) as int * rest as int,
    ;
    lemma_fundamental_div_mod_converse(v as int, pow2(width) as int, rest as int, fields[0] as int);
    if i == 0 {
        assert(i * width == 0) by (nonlinear_arith)
            requires i == 0,
        ;
    } else {
        assert forall|k: int| 0 <= k < t.len() implies (#[trigger] t[k] as nat) < pow2(width) by {
            assert(t[k] == fields[k + 1]);
        }
        let j: nat = (i - 1) as nat;
        lemma_field_of_packed(t, width, j);
        lemma_pow2_adds(width, j * width);
        assert(width + j * width == i * width) by (nonlinear_arith)
            requires i == j + 1,
        ;
        lemma_pow2_pos(j * width);
        lemma_div_denominator(v as int, pow2(width) as int, pow2(j * width) as int);
    }
}

/// A field depends only on the low part of the numeral that covers it.
pub proof fn lemma_field_of_low_part(low: nat, high: nat, bits: nat, width: nat, i: nat)
    requires
        (i + 1) * width <= bits,
    ensures
        field(low + pow2(bits) * high, width, i) == field(low, width, i),
{
    let k: nat = i * width;
    assert(k + width <= bits) by (nonlinear_arith)
        requires (i + 1) * width <= bits, k == i * width,
    ;
    let r: nat = (bits - k - width) as nat;
    lemma_pow2_adds(k, (bits - k) as nat);
    lemma_pow2_adds(width, r);
    lemma_pow2_pos(k);
    lemma_pow2_pos(width);
    let p = pow2(k) as int;
    let w = pow2(width) as int;
    let c = pow2(r) as int * high;
    let v = low + pow2(bits) * high;
    assert(pow2(bits) * high == p * (w * c)) by (nonlinear_arith)
        requires pow2(bits) == p * (w * pow2(r) as int), c == pow2(r) as int * high,
    ;
    lemma_quotient_of_sum(low as int, w * c, p);
    lemma_mod_multiples_vanish(c, low as int / p, w);
    assert(w * c + low as int / p == low as int / p + w * c);
}

/// A multiple of the divisor adds its cofactor to the quotient.
pub proof fn lemma_quotient_of_sum(x: int, q: int, d: int)
    requires
        d > 0,
    ensures
        (x + d * q) / d == x / d + q,
{
    lemma_fundamental_div_mod(x, d);
    lemma_mod_bound(x, d);
    assert(x + d * q == (x / d + q) * d + x % d) by (nonlinear_arith)
        requires x == d * (x / d) + x % d,
    ;
    lemma_fundamental_div_mod_converse(x + d * q, d, x / d + q, x % d);
}

} // verus!
