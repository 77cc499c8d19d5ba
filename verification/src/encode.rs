//! Column payloads: the RAW, RLE, BITPACK and DICT encodings, and the choice
//! between them.

use std::collections::HashMap;
use std::collections::HashSet;
use vstd::prelude::*;
use vstd::arithmetic::power2::*;
use vstd::string::*;
use crate::bitpack::pack_bits;
use crate::bytes::{as_unsigned, push_bytes, push_i64, push_le, to_unsigned};
use crate::constants::{ENC_BITPACK, ENC_DICT, ENC_RAW, ENC_RLE, VT_FLOAT64, VT_INT64, VT_STRING};
use crate::float::{f64_eq, f64_same};
use crate::numeral::{fields_fit, le_bytes, lemma_pow2_8, packed, packed_len};
use crate::seqs::{concat, distinct, greatest, least, lemma_concat_push, lemma_distinct, lemma_extremes,
    min_max};

verus! {

/// The 64-bit patterns of signed numbers.
pub open spec fn to_words(values: Seq<i64>) -> Seq<u64> {
    Seq::new(values.len(), |i: int| as_unsigned(values[i]) as u64)
}

/// Each word as eight bytes.
pub open spec fn word_parts(words: Seq<u64>) -> Seq<Seq<u8>> {
    Seq::new(words.len(), |i: int| le_bytes(words[i] as nat, 8))
}

/// Each byte string with its length before it.
pub open spec fn string_parts(strs: Seq<Seq<u8>>) -> Seq<Seq<u8>> {
    Seq::new(strs.len(), |i: int| le_bytes(strs[i].len(), 4) + strs[i])
}

/// The bytes of each text.
pub open spec fn str_bytes(values: Seq<&str>) -> Seq<Seq<u8>> {
    Seq::new(values.len(), |i: int| values[i].spec_bytes())
}

/// A RAW payload of words: the type byte, then the values.
pub open spec fn raw_words_payload(vtype: u8, words: Seq<u64>) -> Seq<u8> {
    seq![vtype] + concat(word_parts(words))
}

/// A RAW payload of byte strings: the type byte, then each with its length.
pub open spec fn raw_strings_payload(vtype: u8, strs: Seq<Seq<u8>>) -> Seq<u8> {
    seq![vtype] + concat(string_parts(strs))
}

/// Whether a word continues a run: by float equality or by its pattern.
pub open spec fn same_word(a: u64, b: u64, float: bool) -> bool {
    if float {
        f64_same(a, b)
    } else {
        a == b
    }
}

/// The maximal runs of equal words: the first word of each, and its length.
pub open spec fn word_runs(words: Seq<u64>, float: bool) -> Seq<(u64, nat)>
    decreases words.len(),
{
    if words.len() == 0 {
        Seq::empty()
    } else {
        let prev = word_runs(words.drop_last(), float);
        let w = words.last();
        if prev.len() > 0 && same_word(w, prev.last().0, float) {
            prev.drop_last().push((prev.last().0, prev.last().1 + 1))
        } else {
            prev.push((w, 1))
        }
    }
}

/// Each run as its value and its length.
pub open spec fn run_parts(runs: Seq<(u64, nat)>) -> Seq<Seq<u8>> {
    Seq::new(runs.len(), |i: int| le_bytes(runs[i].0 as nat, 8) + le_bytes(runs[i].1, 4))
}

/// An RLE payload of words: the type byte, the number of runs, the runs.
pub open spec fn rle_payload(vtype: u8, words: Seq<u64>, float: bool) -> Seq<u8> {
    let runs = word_runs(words, float);
    seq![vtype] + le_bytes(runs.len(), 4) + concat(run_parts(runs))
}

/// The least number of bits, at least one, in which `v` can be written.
pub open spec fn bit_width(v: nat) -> nat
    decreases v,
{
    if v < 2 {
        1
    } else {
        1 + bit_width(v / 2)
    }
}

/// How far each value lies above the least.
pub open spec fn offsets(values: Seq<i64>) -> Seq<u64> {
    Seq::new(values.len(), |i: int| (values[i] - least(values)) as u64)
}

/// The bit width that holds every offset.
pub open spec fn range_width(values: Seq<i64>) -> nat {
    bit_width((greatest(values) - least(values)) as nat)
}

/// A BITPACK payload: bit width, offset, min, max, packed offsets.
pub open spec fn bitpack_payload(values: Seq<i64>) -> Seq<u8> {
    if values.len() == 0 {
        seq![0u8] + le_bytes(0, 8) + le_bytes(0, 8) + le_bytes(0, 8)
    } else {
        let w = range_width(values);
        let lo = le_bytes(as_unsigned(least(values)), 8);
        let hi = le_bytes(as_unsigned(greatest(values)), 8);
        seq![w as u8] + lo + lo + hi + le_bytes(
            packed(offsets(values), w),
            packed_len(values.len(), w),
        )
    }
}

/// Each value as its place in the dictionary.
pub open spec fn dict_codes(values: Seq<i64>) -> Seq<u64> {
    Seq::new(values.len(), |i: int| distinct(values).index_of(values[i]) as u64)
}

/// The bit width that holds every code.
pub open spec fn code_width(values: Seq<i64>) -> nat {
    bit_width((distinct(values).len() - 1) as nat)
}

/// A DICT payload: entry count, type, entries, code width, packed codes.
pub open spec fn dict_payload(values: Seq<i64>) -> Seq<u8> {
    if values.len() == 0 {
        le_bytes(0, 4) + seq![VT_INT64] + seq![0u8]
    } else {
        let w = code_width(values);
        le_bytes(distinct(values).len(), 4) + seq![VT_INT64] + concat(
            word_parts(to_words(distinct(values))),
        ) + seq![w as u8] + le_bytes(
            packed(dict_codes(values), w),
            packed_len(values.len(), w),
        )
    }
}

/// How often a value differs from the one before it.
pub open spec fn changes(s: Seq<i64>) -> nat
    decreases s.len(),
{
    if s.len() < 2 {
        0
    } else {
        changes(s.drop_last()) + if s[s.len() - 1] != s[s.len() - 2] {
            1nat
        } else {
            0nat
        }
    }
}

/// Whether the first thousand values, of at least ten, hold fewer runs than
/// half their number.
pub open spec fn run_heavy(values: Seq<i64>) -> bool {
    let sample = if values.len() > 1000 {
        values.take(1000)
    } else {
        values
    };
    values.len() >= 10 && 1 + changes(sample) < sample.len() / 2
}

/// Few distinct values: under a tenth of all, and under a thousand.
pub open spec fn low_cardinality(values: Seq<i64>) -> bool {
    10 * distinct(values).len() < values.len() && distinct(values).len() < 1000
}

/// The encoding that suits the values.
pub open spec fn auto_encoding(values: Seq<i64>) -> u8 {
    if values.len() == 0 {
        ENC_RAW
    } else if low_cardinality(values) {
        ENC_DICT
    } else if run_heavy(values) {
        ENC_RLE
    } else if greatest(values) - least(values) < 0x1_0000 {
        ENC_BITPACK
    } else {
        ENC_RAW
    }
}

/// The values' payload under an encoding.
pub open spec fn ints_payload(values: Seq<i64>, enc: u8) -> Seq<u8> {
    if enc == ENC_DICT {
        dict_payload(values)
    } else if enc == ENC_RLE {
        rle_payload(VT_INT64, to_words(values), false)
    } else if enc == ENC_BITPACK {
        bitpack_payload(values)
    } else {
        raw_words_payload(VT_INT64, to_words(values))
    }
}

pub proof fn lemma_bit_width(v: nat)
    ensures
        1 <= bit_width(v),
        v < pow2(bit_width(v)),
        v < 0x1_0000_0000_0000_0000 ==> bit_width(v) <= 64,
    decreases v,
{
    lemma_pow2_8();
    lemma2_to64();
    if v >= 2 {
        lemma_bit_width(v / 2);
        lemma_pow2_unfold(bit_width(v));
        if v < 0x1_0000_0000_0000_0000 {
            lemma_bit_width_bound(v, 64);
        }
    }
}

pub proof fn lemma_bit_width_bound(v: nat, n: nat)
    requires
        n >= 1,
        v < pow2(n),
    ensures
        bit_width(v) <= n,
    decreases n,
{
    lemma2_to64();
    lemma_pow2_8();
    if v >= 2 {
        lemma_pow2_unfold(n);
        if n == 1 {
            assert(false);
        }
        lemma_bit_width_bound(v / 2, (n - 1) as nat);
    }
}

proof fn lemma_concat_take(parts: Seq<Seq<u8>>, i: int)
    requires
        0 <= i < parts.len(),
    ensures
        concat(parts.take(i + 1)) == concat(parts.take(i)) + parts[i],
{
    assert(parts.take(i + 1) =~= parts.take(i).push(parts[i]));
    lemma_concat_push(parts.take(i), parts[i]);
}

/// The 64-bit patterns of signed numbers.
pub fn words_of(values: &[i64]) -> (r: Vec<u64>)
    ensures
        r@ == to_words(values@),
{
    let mut out: Vec<u64> = Vec::with_capacity(values.len());
    let mut i: usize = 0;
    while i < values.len()
        invariant
            i <= values@.len(),
            out@ == to_words(values@).take(i as int),
        decreases values@.len() - i,
    {
        out.push(to_unsigned(values[i]));
        i = i + 1;
        proof {
            let all = to_words(values@);
            assert(all.take(i as int) =~= all.take(i as int - 1).push(all[i as int - 1]));
        }
    }
    proof {
        assert(to_words(values@).take(i as int) =~= to_words(values@));
    }
    out
}

/// Appends words, eight bytes each.
pub fn push_words(out: &mut Vec<u8>, words: &[u64])
    ensures
        final(out)@ == old(out)@ + concat(word_parts(words@)),
{
    let ghost start = out@;
    let ghost parts = word_parts(words@);
    let mut i: usize = 0;
    proof {
        assert(parts.take(0) =~= Seq::<Seq<u8>>::empty());
        assert(start + concat(parts.take(0)) =~= start);
    }
    while i < words.len()
        invariant
            i <= words@.len(),
            parts == word_parts(words@),
            out@ == start + concat(parts.take(i as int)),
        decreases words@.len() - i,
    {
        push_le(out, words[i], 8);
        proof {
            lemma_concat_take(parts, i as int);
            assert(out@ =~= start + concat(parts.take(i as int + 1)));
        }
        i = i + 1;
    }
    proof {
        assert(parts.take(i as int) =~= parts);
    }
}

/// Appends a byte string with its length before it.
pub fn push_string(out: &mut Vec<u8>, s: &[u8])
    ensures
        final(out)@ == old(out)@ + (le_bytes(s@.len(), 4) + s@),
{
    push_le(out, s.len() as u64, 4);
    push_bytes(out, s);
    proof {
        assert(out@ =~= old(out)@ + (le_bytes(s@.len(), 4) + s@));
    }
}

/// A RAW payload of words.
pub fn encode_raw_words(vtype: u8, words: &[u64]) -> (r: Vec<u8>)
    ensures
        r@ == raw_words_payload(vtype, words@),
{
    let mut out: Vec<u8> = Vec::new();
    out.push(vtype);
    proof {
        assert(out@ =~= seq![vtype]);
    }
    push_words(&mut out, words);
    out
}

/// A RAW payload of signed numbers.
pub fn encode_raw_i64_payload(values: &[i64]) -> (r: Vec<u8>)
    ensures
        r@ == raw_words_payload(VT_INT64, to_words(values@)),
{
    let words = words_of(values);
    encode_raw_words(VT_INT64, &words)
}

/// A RAW payload of floats, given as their bit patterns.
pub fn encode_raw_f64_payload(values: &[u64]) -> (r: Vec<u8>)
    ensures
        r@ == raw_words_payload(VT_FLOAT64, values@),
{
    encode_raw_words(VT_FLOAT64, values)
}

/// A RAW payload of texts.
pub fn encode_raw_str_payload(values: &[&str]) -> (r: Vec<u8>)
    ensures
        r@ == raw_strings_payload(VT_STRING, str_bytes(values@)),
{
    let mut out: Vec<u8> = Vec::new();
    out.push(VT_STRING);
    let ghost start = seq![VT_STRING];
    let ghost parts = string_parts(str_bytes(values@));
    let mut i: usize = 0;
    proof {
        assert(parts.take(0) =~= Seq::<Seq<u8>>::empty());
        assert(out@ =~= start + concat(parts.take(0)));
    }
    while i < values.len()
        invariant
            i <= values@.len(),
            parts == string_parts(str_bytes(values@)),
            out@ == start + concat(parts.take(i as int)),
        decreases values@.len() - i,
    {
        push_string(&mut out, values[i].as_bytes());
        proof {
            lemma_concat_take(parts, i as int);
            assert(out@ =~= start + concat(parts.take(i as int + 1)));
        }
        i = i + 1;
    }
    proof {
        assert(parts.take(i as int) =~= parts);
    }
    out
}

/// The runs with their lengths as numbers without bound.
pub open spec fn run_views(runs: Seq<(u64, u64)>) -> Seq<(u64, nat)> {
    Seq::new(runs.len(), |i: int| (runs[i].0, runs[i].1 as nat))
}

fn words_match(a: u64, b: u64, float: bool) -> (r: bool)
    ensures
        r == same_word(a, b, float),
{
    if float {
        f64_eq(a, b)
    } else {
        a == b
    }
}

fn collect_runs(words: &[u64], float: bool) -> (r: Vec<(u64, u64)>)
    ensures
        run_views(r@) == word_runs(words@, float),
        r@.len() <= words@.len(),
{
    let mut runs: Vec<(u64, u64)> = Vec::new();
    let mut i: usize = 0;
    proof {
        assert(words@.take(0) =~= Seq::<u64>::empty());
        assert(run_views(runs@) =~= word_runs(words@.take(0), float));
    }
    while i < words.len()
        invariant
            i <= words@.len(),
            runs@.len() <= i,
            run_views(runs@) == word_runs(words@.take(i as int), float),
            runs@.len() > 0 ==> runs@.last().1 <= i,
        decreases words@.len() - i,
    {
        let w: u64 = words[i];
        let n: usize = runs.len();
        let ghost before = run_views(runs@);
        proof {
            assert(words@.take(i as int + 1).drop_last() =~= words@.take(i as int));
            assert(words@.take(i as int + 1).last() == w);
        }
        if n > 0 && words_match(w, runs[n - 1].0, float) {
            let (first, count) = runs[n - 1];
            runs[n - 1] = (first, count + 1);
            proof {
                assert(run_views(runs@) =~= before.drop_last().push(
                    (before.last().0, before.last().1 + 1),
                ));
            }
        } else {
            runs.push((w, 1));
            proof {
                assert(run_views(runs@) =~= before.push((w, 1)));
            }
        }
        i = i + 1;
    }
    proof {
        assert(words@.take(i as int) =~= words@);
    }
    runs
}

fn encode_rle_words(vtype: u8, words: &[u64], float: bool) -> (r: Vec<u8>)
    ensures
        r@ == rle_payload(vtype, words@, float),
{
    let runs = collect_runs(words, float);
    let ghost parts = run_parts(word_runs(words@, float));
    let mut out: Vec<u8> = Vec::new();
    out.push(vtype);
    push_le(&mut out, runs.len() as u64, 4);
    let ghost start = seq![vtype] + le_bytes(runs@.len(), 4);
    let mut i: usize = 0;
    proof {
        assert(parts.take(0) =~= Seq::<Seq<u8>>::empty());
        assert(out@ =~= start + concat(parts.take(0)));
    }
    while i < runs.len()
        invariant
            i <= runs@.len(),
            run_views(runs@) == word_runs(words@, float),
            parts == run_parts(word_runs(words@, float)),
            out@ == start + concat(parts.take(i as int)),
        decreases runs@.len() - i,
    {
        let (value, count) = runs[i];
        proof {
            assert(run_views(runs@)[i as int] == (value, count as nat));
        }
        push_le(&mut out, value, 8);
        push_le(&mut out, count, 4);
        proof {
            lemma_concat_take(parts, i as int);
            assert(out@ =~= start + concat(parts.take(i as int + 1)));
        }
        i = i + 1;
    }
    proof {
        assert(parts.take(i as int) =~= parts);
    }
    out
}

/// An RLE payload of signed numbers.
pub fn encode_rle_i64(values: &[i64]) -> (r: Vec<u8>)
    ensures
        r@ == rle_payload(VT_INT64, to_words(values@), false),
{
    let words = words_of(values);
    encode_rle_words(VT_INT64, &words, false)
}

/// An RLE payload of floats, given as their bit patterns. Equal floats share
/// a run, and a run keeps the pattern of its first value.
pub fn encode_rle_f64(values: &[u64]) -> (r: Vec<u8>)
    ensures
        r@ == rle_payload(VT_FLOAT64, values@, true),
{
    encode_rle_words(VT_FLOAT64, values, true)
}

/// The least number of bits that hold a number.
pub fn width_of(v: u64) -> (r: u8)
    ensures
        r == bit_width(v as nat),
        1 <= r <= 64,
{
    let mut rest: u64 = v;
    let mut w: u8 = 1;
    proof {
        lemma_bit_width(v as nat);
    }
    while rest >= 2
        invariant
            w as nat + bit_width(rest as nat) == bit_width(v as nat) + 1,
            bit_width(v as nat) <= 64,
        decreases rest,
    {
        proof {
            lemma_bit_width(rest as nat / 2);
        }
        rest = rest / 2;
        w = w + 1;
    }
    w
}

/// A BITPACK payload of signed numbers.
pub fn encode_bitpack_i64(values: &[i64]) -> (r: Vec<u8>)
    ensures
        r@ == bitpack_payload(values@),
{
    let mut out: Vec<u8> = Vec::new();
    if values.len() == 0 {
        out.push(0);
        push_i64(&mut out, 0);
        push_i64(&mut out, 0);
        push_i64(&mut out, 0);
        proof {
            assert(out@ =~= bitpack_payload(values@));
        }
        return out;
    }
    let (lo, hi) = min_max(values);
    proof {
        lemma_extremes(values@);
    }
    let range: u64 = (hi as i128 - lo as i128) as u64;
    let width = width_of(range);
    let mut fields: Vec<u64> = Vec::with_capacity(values.len());
    let mut i: usize = 0;
    while i < values.len()
        invariant
            i <= values@.len(),
            lo == least(values@),
            hi == greatest(values@),
            forall|k: int| 0 <= k < values@.len() ==> lo <= #[trigger] values@[k] <= hi,
            fields@ == offsets(values@).take(i as int),
        decreases values@.len() - i,
    {
        let f: u64 = (values[i] as i128 - lo as i128) as u64;
        fields.push(f);
        proof {
            let all = offsets(values@);
            assert(all.take(i as int + 1) =~= all.take(i as int).push(all[i as int]));
        }
        i = i + 1;
    }
    proof {
        assert(offsets(values@).take(i as int) =~= offsets(values@));
        lemma_bit_width(range as nat);
        assert(fields_fit(fields@, width as nat));
    }
    out.push(width);
    push_i64(&mut out, lo);
    push_i64(&mut out, lo);
    push_i64(&mut out, hi);
    let bits = pack_bits(&fields, width as u32);
    push_bytes(&mut out, &bits);
    proof {
        assert(out@ =~= bitpack_payload(values@));
    }
    out
}

/// The distinct values in order of appearance, and each value's place there.
fn build_dict(values: &[i64]) -> (r: (Vec<i64>, Vec<u64>))
    ensures
        r.0@ == distinct(values@),
        r.1@ == dict_codes(values@),
{
    broadcast use vstd::std_specs::hash::group_hash_axioms;

    let mut unique: Vec<i64> = Vec::new();
    let mut codes: Vec<u64> = Vec::with_capacity(values.len());
    let mut places: HashMap<i64, u64> = HashMap::new();
    let mut i: usize = 0;
    proof {
        assert(values@.take(0) =~= Seq::<i64>::empty());
    }
    while i < values.len()
        invariant
            i <= values@.len(),
            unique@ == distinct(values@.take(i as int)),
            forall|x: i64| #[trigger] places@.contains_key(x) <==> unique@.contains(x),
            forall|x: i64| #[trigger]
                places@.contains_key(x) ==> places@[x] < unique@.len() && unique@[places@[x] as int] == x,
            codes@.len() == i,
            forall|k: int|
                0 <= k < i ==> #[trigger] codes@[k] < unique@.len() && unique@[codes@[k] as int]
                    == values@[k],
        decreases values@.len() - i,
    {
        let v: i64 = values[i];
        proof {
            assert(values@.take(i as int + 1).drop_last() =~= values@.take(i as int));
            assert(values@.take(i as int + 1).last() == v);
        }
        let ghost before = unique@;
        match places.get(&v) {
            Some(code) => {
                codes.push(*code);
            },
            None => {
                let code: u64 = unique.len() as u64;
                places.insert(v, code);
                unique.push(v);
                codes.push(code);
                proof {
                    assert forall|x: i64| #[trigger] places@.contains_key(x) <==> unique@.contains(
                        x,
                    ) by {
                        if x == v {
                            assert(unique@[before.len() as int] == v);
                        } else if before.contains(x) {
                            let j = choose|j: int| 0 <= j < before.len() && before[j] == x;
                            assert(unique@[j] == x);
                        } else if unique@.contains(x) {
                            let j = choose|j: int| 0 <= j < unique@.len() && unique@[j] == x;
                            assert(before[j] == x);
                        }
                    }
                }
            },
        }
        i = i + 1;
    }
    proof {
        assert(values@.take(i as int) =~= values@);
        lemma_distinct(values@);
        assert forall|k: int| 0 <= k < values@.len() implies codes@[k] == dict_codes(values@)[k] by {
            assert(codes@[k] < unique@.len());
            let j = distinct(values@).index_of(values@[k]);
            assert(unique@.contains(values@[k]));
            assert(unique@[j] == values@[k]);
        }
        assert(codes@ =~= dict_codes(values@));
    }
    (unique, codes)
}

/// A DICT payload of signed numbers.
pub fn encode_dict_i64(values: &[i64]) -> (r: Vec<u8>)
    ensures
        r@ == dict_payload(values@),
{
    let mut out: Vec<u8> = Vec::new();
    if values.len() == 0 {
        push_le(&mut out, 0, 4);
        out.push(VT_INT64);
        out.push(0);
        proof {
            assert(out@ =~= dict_payload(values@));
        }
        return out;
    }
    let (unique, codes) = build_dict(values);
    proof {
        lemma_distinct(values@);
        assert(values@.contains(values@[0]));
        assert(distinct(values@).contains(values@[0]));
    }
    let width = width_of((unique.len() - 1) as u64);
    let words = words_of(&unique);
    push_le(&mut out, unique.len() as u64, 4);
    out.push(VT_INT64);
    push_words(&mut out, &words);
    out.push(width);
    proof {
        lemma_bit_width((unique@.len() - 1) as nat);
        assert forall|k: int| 0 <= k < codes@.len() implies (#[trigger] codes@[k] as nat) < pow2(
            width as nat,
        ) by {
            assert(values@.contains(values@[k]));
            assert(distinct(values@).contains(values@[k]));
        }
    }
    let bits = pack_bits(&codes, width as u32);
    push_bytes(&mut out, &bits);
    proof {
        assert(out@ =~= dict_payload(values@));
    }
    out
}

/// Whether the values hold many consecutive repeats.
pub fn is_run_heavy(values: &[i64]) -> (r: bool)
    ensures
        r == run_heavy(values@),
{
    if values.len() < 10 {
        return false;
    }
    let n: usize = if values.len() > 1000 {
        1000
    } else {
        values.len()
    };
    let ghost sample = values@.take(n as int);
    proof {
        assert(values@.take(values@.len() as int) =~= values@);
    }
    let mut runs: usize = 1;
    let mut i: usize = 1;
    while i < n
        invariant
            1 <= i <= n <= values@.len(),
            n <= 1000,
            runs <= i,
            runs == 1 + changes(values@.take(i as int)),
        decreases n - i,
    {
        proof {
            assert(values@.take(i as int + 1).drop_last() =~= values@.take(i as int));
        }
        if values[i] != values[i - 1] {
            runs = runs + 1;
        }
        i = i + 1;
    }
    runs < n / 2
}

/// How many distinct values there are.
fn cardinality(values: &[i64]) -> (r: usize)
    ensures
        r == distinct(values@).len(),
{
    broadcast use vstd::std_specs::hash::group_hash_axioms;

    let mut seen: HashSet<i64> = HashSet::new();
    let mut n: usize = 0;
    let mut i: usize = 0;
    proof {
        assert(values@.take(0) =~= Seq::<i64>::empty());
    }
    while i < values.len()
        invariant
            i <= values@.len(),
            n <= i,
            n == distinct(values@.take(i as int)).len(),
            forall|x: i64| #[trigger] seen@.contains(x) <==> distinct(values@.take(i as int)).contains(x),
        decreases values@.len() - i,
    {
        let v: i64 = values[i];
        let ghost before = distinct(values@.take(i as int));
        proof {
            assert(values@.take(i as int + 1).drop_last() =~= values@.take(i as int));
            assert(values@.take(i as int + 1).last() == v);
        }
        let fresh = seen.insert(v);
        if fresh {
            n = n + 1;
        }
        proof {
            let after = distinct(values@.take(i as int + 1));
            assert forall|x: i64| #[trigger] seen@.contains(x) <==> after.contains(x) by {
                if fresh {
                    assert(after == before.push(v));
                    if x == v {
                        assert(after[before.len() as int] == v);
                    } else if before.contains(x) {
                        let j = choose|j: int| 0 <= j < before.len() && before[j] == x;
                        assert(after[j] == x);
                    } else if after.contains(x) {
                        let j = choose|j: int| 0 <= j < after.len() && after[j] == x;
                        assert(before[j] == x);
                    }
                }
            }
        }
        i = i + 1;
    }
    proof {
        assert(values@.take(i as int) =~= values@);
    }
    n
}

/// Picks an encoding for the values and encodes them.
pub fn encode_i64_auto(values: &[i64]) -> (r: (u8, Vec<u8>))
    ensures
        r.0 == auto_encoding(values@),
        r.1@ == ints_payload(values@, auto_encoding(values@)),
{
    if values.len() == 0 {
        return (ENC_RAW, encode_raw_i64_payload(values));
    }
    let card: usize = cardinality(values);
    if card < 1000 && 10 * card < values.len() {
        return (ENC_DICT, encode_dict_i64(values));
    }
    if is_run_heavy(values) {
        return (ENC_RLE, encode_rle_i64(values));
    }
    let (lo, hi) = min_max(values);
    if (hi as i128 - lo as i128) < 0x1_0000 {
        return (ENC_BITPACK, encode_bitpack_i64(values));
    }
    (ENC_RAW, encode_raw_i64_payload(values))
}

} // verus!
