//! Packing unsigned fields of a fixed bit width into bytes, and back.

use vstd::prelude::*;
use vstd::arithmetic::power2::*;
use vstd::arithmetic::div_mod::*;
use vstd::bits::*;
use crate::bytes::lemma_pow2_monotone;
use crate::numeral::{field, fields_fit, le_bytes, le_value, lemma_field_of_low_part, lemma_le_bytes_of_value,
    lemma_le_value_append, lemma_le_value_push, lemma_packed_bound, lemma_packed_push, lemma_pow2_8,
    lemma_quotient_of_sum, packed, packed_len};

verus! {

/// Two to the power `width`.
pub fn power_of_two(width: u32) -> (r: u128)
    requires
        width <= 64,
    ensures
        r == pow2(width as nat),
{
    let mut r: u128 = 1;
    let mut k: u32 = 0;
    proof {
        lemma_pow2_8();
    }
    while k < width
        invariant
            k <= width <= 64,
            r == pow2(k as nat),
        decreases width - k,
    {
        proof {
            lemma_pow2_unfold((k + 1) as nat);
            lemma_pow2_8();
            lemma_pow2_monotone(k as nat, 64);
        }
        r = r * 2;
        k = k + 1;
    }
    r
}

/// Packs the fields, each `width` bits wide, with no gap between them.
pub fn pack_bits(fields: &[u64], width: u32) -> (r: Vec<u8>)
    requires
        1 <= width <= 64,
        fields_fit(fields@, width as nat),
    ensures
        r@ == le_bytes(packed(fields@, width as nat), packed_len(fields@.len(), width as nat)),
{
    let mut out: Vec<u8> = Vec::new();
    let mut acc: u128 = 0;
    let mut bits: u32 = 0;
    let mut i: usize = 0;
    let ghost w = width as nat;
    let mut scale: u128 = 1;
    let step: u128 = power_of_two(width);
    proof {
        lemma_pow2_8();
        assert(fields@.take(0) =~= Seq::<u64>::empty());
    }
    while i < fields.len()
        invariant
            i <= fields@.len(),
            w == width,
            1 <= width <= 64,
            step == pow2(w),
            bits < 8,
            scale == pow2(bits as nat),
            acc < pow2(bits as nat),
            bits + 8 * out@.len() == i * w,
            fields_fit(fields@, w),
            le_value(out@) + pow2(8 * out@.len()) * acc as nat == packed(fields@.take(i as int), w),
        decreases fields@.len() - i,
    {
        let v = fields[i];
        proof {
            lemma_pow2_8();
            lemma_pow2_monotone(bits as nat, 8);
            lemma_pow2_monotone(w, 64);
            lemma_pow2_adds(bits as nat, w);
            lemma_packed_push(fields@.take(i as int), v, w);
            assert(fields@.take(i as int).push(v) =~= fields@.take(i as int + 1));
            lemma_pow2_adds(8 * out@.len(), bits as nat);
            let a = pow2(8 * out@.len()) as int;
            let s = scale as int;
            assert(a * (acc as int + v as int * s) == a * acc as int + (a * s) * v as int)
                by (nonlinear_arith);
            assert(0 <= v as int * s <= s * step as int - s) by (nonlinear_arith)
                requires 0 <= v as int, v as int + 1 <= step as int, s >= 0,
            ;
            assert(s * step as int <= 256 * 0x1_0000_0000_0000_0000) by (nonlinear_arith)
                requires 0 <= s <= 256, 0 <= step as int <= 0x1_0000_0000_0000_0000,
            ;
        }
        acc = acc + v as u128 * scale;
        bits = bits + width;
        proof {
            assert(i * w + w == (i + 1) * w) by (nonlinear_arith);
        }
        while bits >= 8
            invariant
                i < fields@.len(),
                w == width,
                bits <= 71,
                acc < pow2(bits as nat),
                bits + 8 * out@.len() == (i + 1) * w,
                le_value(out@) + pow2(8 * out@.len()) * acc as nat == packed(
                    fields@.take(i as int + 1),
                    w,
                ),
            decreases bits,
        {
            let low = (acc % 256) as u8;
            let high = acc / 256;
            proof {
                lemma_pow2_8();
                lemma_le_value_push(out@, low);
                lemma_pow2_adds(8 * out@.len(), 8);
                lemma_pow2_adds(8, (bits - 8) as nat);
                let a = pow2(8 * out@.len()) as int;
                assert(a * acc as int == a * low as int + (a * 256) * high as int)
                    by (nonlinear_arith)
                    requires acc as int == low as int + 256 * high as int,
                ;
            }
            out.push(low);
            acc = high;
            bits = bits - 8;
        }
        scale = power_of_two(bits);
        i = i + 1;
    }
    proof {
        assert(fields@.take(i as int) =~= fields@);
        lemma_packed_bound(fields@, w);
    }
    let ghost total = packed(fields@, w);
    if bits > 0 {
        proof {
            lemma_pow2_8();
            lemma_pow2_monotone(bits as nat, 8);
            lemma_le_value_push(out@, acc as u8);
        }
        out.push(acc as u8);
    } else {
        proof {
            lemma_pow2_8();
            assert(acc == 0);
        }
    }
    proof {
        assert(le_value(out@) == total);
        assert(out@.len() == packed_len(fields@.len(), w));
        lemma_le_bytes_of_value(out@);
    }
    out
}

/// The first `n` fields of `width` bits in a run of bytes that holds them all.
pub fn unpack_bits(bytes: &[u8], width: u32, n: usize) -> (r: Vec<u64>)
    requires
        1 <= width <= 64,
        n * width <= 8 * bytes@.len(),
    ensures
        r@.len() == n,
        forall|i: int| 0 <= i < n ==> #[trigger] r@[i] == field(
            le_value(bytes@),
            width as nat,
            i as nat,
        ),
{
    let mut out: Vec<u64> = Vec::with_capacity(n);
    let mut acc: u128 = 0;
    let mut bits: u32 = 0;
    let mut pos: usize = 0;
    let mut scale: u128 = 1;
    let ghost w = width as nat;
    let step: u128 = power_of_two(width);
    proof {
        lemma_pow2_8();
        assert(bytes@.take(0) =~= Seq::<u8>::empty());
    }
    while out.len() < n
        invariant
            w == width,
            1 <= width <= 64,
            step == pow2(w),
            out@.len() <= n,
            n * width <= 8 * bytes@.len(),
            pos <= bytes@.len(),
            bits < 64 + 8,
            bits + out@.len() * w == 8 * pos,
            scale == pow2(bits as nat),
            acc < pow2(bits as nat),
            acc as nat == le_value(bytes@.take(pos as int)) / pow2(out@.len() * w),
            forall|i: int| 0 <= i < out@.len() ==> #[trigger] out@[i] == field(
                le_value(bytes@),
                w,
                i as nat,
            ),
        decreases n - out@.len(),
    {
        let ghost done = out@.len();
        proof {
            assert((done + 1) * w <= n * w) by (nonlinear_arith)
                requires done + 1 <= n,
            ;
            assert((done + 1) * w == done * w + w) by (nonlinear_arith);
        }
        while bits < width
            invariant
                w == width,
                1 <= width <= 64,
                done == out@.len(),
                done * w + w <= 8 * bytes@.len(),
                pos <= bytes@.len(),
                bits < 64 + 8,
                bits + done * w == 8 * pos,
                scale == pow2(bits as nat),
                acc < pow2(bits as nat),
                acc as nat == le_value(bytes@.take(pos as int)) / pow2(done * w),
            decreases 128 - bits,
        {
            let b = bytes[pos];
            proof {
                lemma_pow2_8();
                lemma_pow2_monotone(bits as nat, 64);
                lemma_pow2_adds(bits as nat, 8);
                assert(b as int * scale as int <= 255 * scale as int) by (nonlinear_arith)
                    requires b as int <= 255, scale as int >= 0,
                ;
                assert(bytes@.take(pos as int + 1) =~= bytes@.take(pos as int).push(b));
                lemma_le_value_push(bytes@.take(pos as int), b);
                lemma_pow2_adds(done * w, bits as nat);
                lemma_pow2_pos(done * w);
                let d = pow2(done * w) as int;
                let low = le_value(bytes@.take(pos as int)) as int;
                let s = scale as int;
                assert((d * s) * b as int == d * (b as int * s)) by (nonlinear_arith);
                lemma_quotient_of_sum(low, b as int * s, d);
            }
            acc = acc + b as u128 * scale;
            proof {
                lemma_pow2_monotone((bits + 8) as nat, 72);
                lemma_pow2_adds(64, 8);
            }
            scale = scale * 256;
            bits = bits + 8;
            pos = pos + 1;
        }
        let high = acc >> width;
        proof {
            lemma_u128_shr_is_div(acc, width as u128);
            lemma_pow2_pos(w);
            lemma_fundamental_div_mod(acc as int, step as int);
            lemma_mod_pos_bound(acc as int, step as int);
            lemma_pow2_8();
            lemma_pow2_monotone(w, 64);
            assert(high as int * step as int == step as int * (acc as int / step as int))
                by (nonlinear_arith)
                requires high as int == acc as int / step as int,
            ;
        }
        let v = (acc - high * step) as u64;
        proof {
            let all = bytes@;
            let low = le_value(bytes@.take(pos as int));
            let rest = bytes@.skip(pos as int);
            assert(bytes@.take(pos as int) + rest =~= all);
            lemma_le_value_append(bytes@.take(pos as int), rest);
            lemma_field_of_low_part(low, le_value(rest), 8 * pos as nat, w, done);
            assert(v == field(low, w, done));
            lemma_pow2_adds(done * w, w);
            lemma_pow2_pos(done * w);
            lemma_div_denominator(low as int, pow2(done * w) as int, pow2(w) as int);
            lemma_pow2_adds(w, (bits - w) as nat);
            assert(high as int <= pow2((bits - w) as nat) as int - 1) by (nonlinear_arith)
                requires
                    step as int * high as int <= acc as int,
                    (acc as int) < step as int * pow2((bits - w) as nat) as int,
                    step as int > 0,
            ;
        }
        out.push(v);
        acc = high;
        proof {
            lemma_u128_shr_is_div(scale, width as u128);
            lemma_pow2_subtracts(w, bits as nat);
        }
        scale = scale >> width;
        bits = bits - width;
    }
    out
}

} // verus!
