//! Encoding and decoding of PND2 blobs.

use pond_core::assemble::{
    pnd2_encode_f64, pnd2_encode_i64, pnd2_encode_i64_auto, pnd2_encode_multi, pnd2_encode_str, EncodeMultiColumn,
};
use pond_core::blob::{pnd2_decode, pnd2_decode_projected, DecodeError};
use pond_core::constants::{
    pnd2_magic, COMPRESSION_NONE, COMPRESSION_ZSTD, ENC_BITPACK, ENC_DICT, ENC_RAW, ENC_RLE, FLAG_HAS_STATS,
    PND2_VERSION, VT_BINARY, VT_BOOLEAN, VT_FLOAT64, VT_INT64, VT_STRING, VT_VARIANT,
};
use pond_core::decode::{decode_bitpack, decode_dict, decode_raw, decode_rle};
use pond_core::encode::{
    encode_bitpack_i64, encode_dict_i64, encode_i64_auto, encode_rle_f64, encode_rle_i64, is_run_heavy,
};
use pond_core::handle::{pond_pnd2_decode, PondEncoder};
use pond_core::typed::{pnd2_encode_multi_typed, TypedColumn};

fn bits(values: &[f64]) -> Vec<u64> {
    values.iter().map(|v| v.to_bits()).collect()
}

fn make_bitpack_payload(bitwidth: u8, offset: i64, values: &[u64]) -> Vec<u8> {
    let mut payload = Vec::new();
    payload.push(bitwidth);
    payload.extend_from_slice(&offset.to_le_bytes());
    let min_val = values.iter().copied().min().unwrap_or(0);
    payload.extend_from_slice(&(min_val as i64).to_le_bytes());
    let max_val = values.iter().copied().max().unwrap_or(0);
    payload.extend_from_slice(&(max_val as i64).to_le_bytes());
    let total_bits = values.len() * bitwidth as usize;
    let total_bytes = total_bits.div_ceil(8);
    let mut packed = vec![0u8; total_bytes];
    let mut bit_pos = 0usize;
    for &v in values {
        for b in 0..bitwidth as usize {
            if v & (1u64 << b) != 0 {
                let bp = bit_pos + b;
                packed[bp / 8] |= 1 << (bp % 8);
            }
        }
        bit_pos += bitwidth as usize;
    }
    payload.extend_from_slice(&packed);
    payload
}

#[test]
fn test_bitpack_width_8() {
    let values: Vec<u64> = (0..100).map(|i| i as u64).collect();
    let payload = make_bitpack_payload(8, 1000, &values);
    let col = decode_bitpack(&payload, 100);
    assert_eq!(col.n_values, 100);
    assert_eq!(col.i64_data.len(), 100);
    for i in 0..100 {
        assert_eq!(col.i64_data[i], i as i64 + 1000);
    }
}

#[test]
fn test_bitpack_width_16() {
    let values: Vec<u64> = (0..50).map(|i| (i * 100) as u64).collect();
    let payload = make_bitpack_payload(16, -500, &values);
    let col = decode_bitpack(&payload, 50);
    assert_eq!(col.n_values, 50);
    for i in 0..50 {
        assert_eq!(col.i64_data[i], (i * 100) as i64 - 500);
    }
}

#[test]
fn test_bitpack_width_32() {
    let values: Vec<u64> = (0..20).map(|i| (i * 100000) as u64).collect();
    let payload = make_bitpack_payload(32, 0, &values);
    let col = decode_bitpack(&payload, 20);
    assert_eq!(col.n_values, 20);
    for i in 0..20 {
        assert_eq!(col.i64_data[i], (i * 100000) as i64);
    }
}

#[test]
fn test_bitpack_width_64() {
    let values: Vec<u64> = (0..10).map(|i| 0x1234_5678_9ABC_DEF0u64 | (i as u64)).collect();
    let payload = make_bitpack_payload(64, 42, &values);
    let col = decode_bitpack(&payload, 10);
    assert_eq!(col.n_values, 10);
    for i in 0..10 {
        assert_eq!(col.i64_data[i], (0x1234_5678_9ABC_DEF0u64 | (i as u64)) as i64 + 42);
    }
}

#[test]
fn test_bitpack_width_non_aligned() {
    let values: Vec<u64> = (0..30).map(|i| (i % 32) as u64).collect();
    let payload = make_bitpack_payload(5, 10, &values);
    let col = decode_bitpack(&payload, 30);
    assert_eq!(col.n_values, 30);
    for i in 0..30 {
        assert_eq!(col.i64_data[i], (i % 32) as i64 + 10, "mismatch at i={}", i);
    }
}

#[test]
fn test_bitpack_width_7_large() {
    let values: Vec<u64> = (0..1000).map(|i| (i % 128) as u64).collect();
    let payload = make_bitpack_payload(7, 0, &values);
    let col = decode_bitpack(&payload, 1000);
    assert_eq!(col.n_values, 1000);
    for i in 0..1000 {
        assert_eq!(col.i64_data[i], (i % 128) as i64, "mismatch at i={}", i);
    }
}

#[test]
fn test_bitpack_width_1() {
    let values: Vec<u64> = (0..64).map(|i| i % 2).collect();
    let payload = make_bitpack_payload(1, 0, &values);
    let col = decode_bitpack(&payload, 64);
    assert_eq!(col.n_values, 64);
    for i in 0..64 {
        assert_eq!(col.i64_data[i], (i % 2) as i64);
    }
}

#[test]
fn test_bitpack_empty_and_edge() {
    let col = decode_bitpack(&[], 10);
    assert_eq!(col.n_values, 0);

    let payload = make_bitpack_payload(0, 0, &[]);
    let col = decode_bitpack(&payload, 10);
    assert_eq!(col.n_values, 0);

    let mut payload = vec![65u8];
    payload.extend_from_slice(&0i64.to_le_bytes());
    payload.extend_from_slice(&0i64.to_le_bytes());
    payload.extend_from_slice(&0i64.to_le_bytes());
    let col = decode_bitpack(&payload, 10);
    assert_eq!(col.n_values, 0);
}

#[test]
fn test_bitpack_n_rows_exceeds_packed() {
    let values: Vec<u64> = vec![1, 2, 3];
    let payload = make_bitpack_payload(8, 0, &values);
    let col = decode_bitpack(&payload, 1000);
    assert_eq!(col.n_values, 3);
}

#[test]
fn bitpack_every_width_round_trips() {
    for width in 1..=64u32 {
        let top: u64 = if width == 64 { u64::MAX } else { (1u64 << width) - 1 };
        let values: Vec<u64> = vec![0, top, top / 3, 1 & top, top - (top / 5)];
        let payload = make_bitpack_payload(width as u8, 0, &values);
        let col = decode_bitpack(&payload, values.len());
        let back: Vec<u64> = col.i64_data.iter().map(|v| *v as u64).collect();
        assert_eq!(back, values, "width {}", width);
    }
}

fn make_rle_string_payload(runs: &[(&[u8], usize)]) -> Vec<u8> {
    let mut payload = Vec::new();
    payload.push(VT_STRING);
    payload.extend_from_slice(&(runs.len() as u32).to_le_bytes());
    for (val, count) in runs {
        payload.extend_from_slice(&(val.len() as u32).to_le_bytes());
        payload.extend_from_slice(val);
        payload.extend_from_slice(&(*count as u32).to_le_bytes());
    }
    payload
}

#[test]
fn test_rle_string_single_run_large() {
    let val = b"N/A";
    let payload = make_rle_string_payload(&[(val, 100_000)]);
    let col = decode_rle(&payload, VT_STRING, 100_000);
    assert_eq!(col.n_values, 100_000);
    assert_eq!(col.str_data.len(), 100_000);
    for s in &col.str_data {
        assert_eq!(s.as_slice(), b"N/A");
    }
}

#[test]
fn test_rle_string_multiple_runs() {
    let payload = make_rle_string_payload(&[(b"hello", 10), (b"world", 20), (b"foo", 5)]);
    let col = decode_rle(&payload, VT_STRING, 100);
    assert_eq!(col.n_values, 35);
    assert_eq!(col.str_data.len(), 35);
    for i in 0..10 {
        assert_eq!(col.str_data[i].as_slice(), b"hello");
    }
    for i in 10..30 {
        assert_eq!(col.str_data[i].as_slice(), b"world");
    }
    for i in 30..35 {
        assert_eq!(col.str_data[i].as_slice(), b"foo");
    }
}

#[test]
fn test_rle_string_n_rows_truncation() {
    let payload = make_rle_string_payload(&[(b"a", 100), (b"b", 100)]);
    let col = decode_rle(&payload, VT_STRING, 50);
    assert_eq!(col.n_values, 50);
    for s in &col.str_data {
        assert_eq!(s.as_slice(), b"a");
    }
}

fn pnd2_encode_single_col(name: &str, vtype: u8, enc: u8, payload: &[u8], values: &[i64], n_rows: usize) -> Vec<u8> {
    let mut inner = Vec::new();
    let name_bytes = name.as_bytes();
    inner.push(name_bytes.len() as u8);
    inner.extend_from_slice(name_bytes);
    inner.push(vtype);
    inner.push(enc);
    if !values.is_empty() {
        let min = *values.iter().min().unwrap();
        let max = *values.iter().max().unwrap();
        inner.push(1);
        inner.extend_from_slice(&min.to_le_bytes());
        inner.extend_from_slice(&max.to_le_bytes());
    } else {
        inner.push(0);
    }
    inner.extend_from_slice(&0u32.to_le_bytes());
    inner.extend_from_slice(&(payload.len() as u32).to_le_bytes());
    inner.extend_from_slice(payload);
    header(COMPRESSION_NONE, n_rows, 1, &inner)
}

fn header(compression: u8, n_rows: usize, n_columns: usize, inner: &[u8]) -> Vec<u8> {
    let mut blob = Vec::with_capacity(13 + inner.len());
    blob.extend_from_slice(&pnd2_magic());
    blob.push(PND2_VERSION);
    blob.push(FLAG_HAS_STATS);
    blob.extend_from_slice(&(n_rows as u32).to_le_bytes());
    blob.extend_from_slice(&(n_columns as u16).to_le_bytes());
    blob.push(compression);
    blob.extend_from_slice(inner);
    blob
}

#[test]
fn test_rle_i64_roundtrip() {
    let values = vec![1i64, 1, 1, 2, 2, 3, 3, 3, 3];
    let payload = encode_rle_i64(&values);
    let blob = pnd2_encode_single_col("v", VT_INT64, ENC_RLE, &payload, &values, values.len());
    let cols = pnd2_decode(&blob).unwrap();
    assert_eq!(cols[0].i64_data, values);
}

#[test]
fn test_bitpack_i64_roundtrip() {
    let values: Vec<i64> = (0..100).map(|i| i % 10).collect();
    let payload = encode_bitpack_i64(&values);
    let blob = pnd2_encode_single_col("v", VT_INT64, ENC_BITPACK, &payload, &values, values.len());
    let cols = pnd2_decode(&blob).unwrap();
    assert_eq!(cols[0].i64_data, values);
}

#[test]
fn test_dict_i64_roundtrip() {
    let values = vec![5i64, 3, 5, 1, 3, 5, 1, 1, 3, 5];
    let payload = encode_dict_i64(&values);
    let blob = pnd2_encode_single_col("v", VT_INT64, ENC_DICT, &payload, &values, values.len());
    let cols = pnd2_decode(&blob).unwrap();
    assert_eq!(cols[0].i64_data, values);
}

#[test]
fn test_auto_encode_low_cardinality() {
    let values: Vec<i64> = (0..1000).map(|i| i % 5).collect();
    let (enc, _) = encode_i64_auto(&values);
    assert_eq!(enc, ENC_DICT);
}

#[test]
fn test_auto_encode_run_heavy() {
    let values: Vec<i64> = (0..2000).map(|i| i / 5).collect();
    let (enc, _) = encode_i64_auto(&values);
    assert_eq!(enc, ENC_RLE);
}

#[test]
fn test_auto_encode_small_range() {
    let values: Vec<i64> = (0..100).map(|i| i % 50).collect();
    let (enc, _) = encode_i64_auto(&values);
    assert_eq!(enc, ENC_BITPACK);
}

#[test]
fn test_auto_encode_large_range() {
    let values: Vec<i64> = (0..1000).map(|i| i * 1_000_000_000).collect();
    let (enc, _) = encode_i64_auto(&values);
    assert_eq!(enc, ENC_RAW);
}

#[test]
fn test_pnd2_encode_i64_auto_multi() {
    let ids: Vec<i64> = (0..100).collect();
    let cats: Vec<i64> = (0..100).map(|i| i % 3).collect();
    let blob = pnd2_encode_i64_auto(&[("id", &ids), ("cat", &cats)]);
    let cols = pnd2_decode(&blob).unwrap();
    assert_eq!(cols.len(), 2);
    assert_eq!(cols[0].i64_data, ids);
    assert_eq!(cols[1].i64_data, cats);
}

#[test]
fn test_encode_decode_i64_roundtrip() {
    let input: Vec<i64> = vec![1, 2, 3, 100, -50, 999999, 0, -1];
    let blob = pnd2_encode_i64(&input);
    assert_eq!(&blob[0..4], &pnd2_magic());
    assert_eq!(blob[4], PND2_VERSION);

    let cols = pnd2_decode(&blob).expect("decode should succeed");
    assert_eq!(cols.len(), 1);
    assert_eq!(cols[0].name, b"v");
    assert_eq!(cols[0].vtype, VT_INT64);
    assert_eq!(cols[0].n_values, input.len());
    assert_eq!(cols[0].i64_data, input);
}

#[test]
fn test_encode_empty_returns_blob() {
    let blob = pnd2_encode_i64(&[]);
    assert_eq!(&blob[0..4], &pnd2_magic());
    let cols = pnd2_decode(&blob).expect("decode should succeed");
    assert_eq!(cols.len(), 1);
    assert_eq!(cols[0].n_values, 0);
}

#[test]
fn test_decode_rejects_bad_magic() {
    let garbage = [1u8, 2, 3, 4, 5, 6, 7, 8, 9, 10, 11, 12, 13];
    assert!(pnd2_decode(&garbage).is_err());
}

#[test]
fn test_decode_rejects_zstd() {
    let mut blob = vec![b'P', b'N', b'D', b'2', 2, 0, 0, 0, 0, 0, 0, 0];
    blob.push(COMPRESSION_ZSTD);
    assert!(pnd2_decode(&blob).is_err());
}

#[test]
fn test_encode_decode_f64_roundtrip() {
    let input: Vec<f64> = vec![1.5, 2.5, 3.5, -0.5, 99.99, 0.0, -1.0, 1e10];
    let blob = pnd2_encode_f64(&bits(&input));
    assert_eq!(&blob[0..4], &pnd2_magic());

    let cols = pnd2_decode(&blob).expect("decode should succeed");
    assert_eq!(cols.len(), 1);
    assert_eq!(cols[0].vtype, VT_FLOAT64);
    assert_eq!(cols[0].n_values, input.len());
    assert_eq!(cols[0].f64_data, bits(&input));
}

#[test]
fn test_encode_decode_str_roundtrip() {
    let input: Vec<&str> = vec!["alice", "bob", "carol", "dave", ""];
    let blob = pnd2_encode_str(&input);
    assert_eq!(&blob[0..4], &pnd2_magic());

    let cols = pnd2_decode(&blob).expect("decode should succeed");
    assert_eq!(cols.len(), 1);
    assert_eq!(cols[0].vtype, VT_STRING);
    assert_eq!(cols[0].n_values, input.len());
    for (i, expected) in input.iter().enumerate() {
        assert_eq!(cols[0].str_data[i], expected.as_bytes(), "string at index {} mismatch", i);
    }
}

#[test]
fn test_decode_raw_int64_with_stats() {
    let input: Vec<i64> = vec![10, 20, 30];
    let blob = pnd2_encode_i64(&input);
    let cols = pnd2_decode(&blob).expect("decode should succeed");
    assert_eq!(cols[0].i64_data, input);
}

#[test]
fn test_decode_handles_empty_string_payload() {
    let mut inner = Vec::new();
    inner.extend_from_slice(&[1]);
    inner.extend_from_slice(b"v");
    inner.extend_from_slice(&[VT_STRING, ENC_RAW]);
    inner.push(0);
    inner.extend_from_slice(&0u32.to_le_bytes());
    inner.extend_from_slice(&0u32.to_le_bytes());
    let blob = header(COMPRESSION_NONE, 0, 1, &inner);

    let cols = pnd2_decode(&blob).expect("decode should succeed");
    assert_eq!(cols.len(), 1);
    assert_eq!(cols[0].vtype, VT_STRING);
    assert_eq!(cols[0].n_values, 0);
}

fn int_payload(values: &[i64]) -> Vec<u8> {
    let mut payload = vec![VT_INT64];
    for v in values {
        payload.extend_from_slice(&v.to_le_bytes());
    }
    payload
}

fn float_payload(values: &[f64]) -> Vec<u8> {
    let mut payload = vec![VT_FLOAT64];
    for v in values {
        payload.extend_from_slice(&v.to_le_bytes());
    }
    payload
}

fn str_payload(values: &[&str]) -> Vec<u8> {
    let mut payload = vec![VT_STRING];
    for v in values {
        payload.extend_from_slice(&(v.len() as u32).to_le_bytes());
        payload.extend_from_slice(v.as_bytes());
    }
    payload
}

#[test]
fn test_encode_multi_roundtrip() {
    let n_rows = 4usize;
    let id_vals: Vec<i64> = vec![10, 20, 30, 40];
    let id_payload = int_payload(&id_vals);
    let id_min_bytes = id_vals.iter().min().unwrap().to_le_bytes();
    let id_max_bytes = id_vals.iter().max().unwrap().to_le_bytes();

    let score_vals: Vec<f64> = vec![1.5, 2.5, 3.5, 4.5];
    let score_payload = float_payload(&score_vals);
    let score_min_bytes = score_vals.iter().cloned().fold(f64::INFINITY, f64::min).to_le_bytes();
    let score_max_bytes = score_vals.iter().cloned().fold(f64::NEG_INFINITY, f64::max).to_le_bytes();

    let name_vals: Vec<&str> = vec!["alice", "bob", "carol", "dave"];
    let name_payload = str_payload(&name_vals);

    let cols = vec![
        EncodeMultiColumn {
            name: "id",
            vtype: VT_INT64,
            payload: &id_payload,
            stats: Some((id_min_bytes.as_slice(), id_max_bytes.as_slice(), 0)),
        },
        EncodeMultiColumn {
            name: "score",
            vtype: VT_FLOAT64,
            payload: &score_payload,
            stats: Some((score_min_bytes.as_slice(), score_max_bytes.as_slice(), 0)),
        },
        EncodeMultiColumn { name: "name", vtype: VT_STRING, payload: &name_payload, stats: None },
    ];

    let blob = pnd2_encode_multi(&cols, n_rows);
    assert_eq!(&blob[0..4], &pnd2_magic());

    let decoded = pnd2_decode(&blob).expect("decode should succeed");
    assert_eq!(decoded.len(), 3);

    assert_eq!(decoded[0].name, b"id");
    assert_eq!(decoded[0].vtype, VT_INT64);
    assert_eq!(decoded[0].n_values, n_rows);
    assert_eq!(decoded[0].i64_data, id_vals);

    assert_eq!(decoded[1].name, b"score");
    assert_eq!(decoded[1].vtype, VT_FLOAT64);
    assert_eq!(decoded[1].n_values, n_rows);
    assert_eq!(decoded[1].f64_data, bits(&score_vals));

    assert_eq!(decoded[2].name, b"name");
    assert_eq!(decoded[2].vtype, VT_STRING);
    assert_eq!(decoded[2].n_values, n_rows);
    for (i, expected) in name_vals.iter().enumerate() {
        assert_eq!(decoded[2].str_data[i], expected.as_bytes());
    }
}

#[test]
fn test_decode_projection_pushdown() {
    let n_rows = 4usize;
    let id_vals: Vec<i64> = vec![10, 20, 30, 40];
    let id_payload = int_payload(&id_vals);
    let score_payload = float_payload(&[1.5, 2.5, 3.5, 4.5]);
    let name_payload = str_payload(&["alice", "bob", "carol", "dave"]);
    let cols = vec![
        EncodeMultiColumn { name: "id", vtype: VT_INT64, payload: &id_payload, stats: None },
        EncodeMultiColumn { name: "score", vtype: VT_FLOAT64, payload: &score_payload, stats: None },
        EncodeMultiColumn { name: "name", vtype: VT_STRING, payload: &name_payload, stats: None },
    ];
    let blob = pnd2_encode_multi(&cols, n_rows);

    let decoded = pnd2_decode_projected(&blob, Some(&["id"])).unwrap();
    assert_eq!(decoded.len(), 1);
    assert_eq!(decoded[0].name, b"id");
    assert_eq!(decoded[0].i64_data, id_vals);

    let decoded2 = pnd2_decode_projected(&blob, Some(&["name", "score"])).unwrap();
    assert_eq!(decoded2.len(), 2);
    assert_eq!(decoded2[0].name, b"score");
    assert_eq!(decoded2[1].name, b"name");

    let decoded_all = pnd2_decode_projected(&blob, None).unwrap();
    assert_eq!(decoded_all.len(), 3);

    let decoded3 = pnd2_decode_projected(&blob, Some(&["nonexistent"])).unwrap();
    assert_eq!(decoded3.len(), 0);
}

#[test]
fn zstd_blob_decodes_like_a_plain_one() {
    let plain = pnd2_encode_i64(&[7, 7, -3, 12]);
    let packed = zstd::encode_all(&plain[13..], 3).unwrap();
    let blob = header(COMPRESSION_ZSTD, 4, 1, &packed);
    let cols = pnd2_decode(&blob).unwrap();
    assert_eq!(cols[0].i64_data, vec![7, 7, -3, 12]);
}

#[test]
fn every_refusal_has_its_words() {
    let mut blob = pnd2_encode_i64(&[1]);
    assert_eq!(pnd2_decode(b"PND").unwrap_err(), DecodeError::NotPnd2);
    assert_eq!(pnd2_decode(b"PND").unwrap_err().message(), "not a PND2 blob");
    blob[4] = 9;
    assert_eq!(pnd2_decode(&blob).unwrap_err(), DecodeError::UnsupportedVersion(9));
    assert_eq!(pnd2_decode(&blob).unwrap_err().message(), "unsupported PND2 version: 9");
    blob[4] = PND2_VERSION;
    blob[12] = 77;
    assert_eq!(pnd2_decode(&blob).unwrap_err(), DecodeError::UnknownCompression(77));
    assert_eq!(pnd2_decode(&blob).unwrap_err().message(), "unknown compression tag: 77");
    blob[12] = COMPRESSION_ZSTD;
    let e = pnd2_decode(&blob).unwrap_err();
    assert!(matches!(e, DecodeError::Zstd(_)));
    assert!(e.message().starts_with("zstd: failed to decompress: "));
}

#[test]
fn a_blob_cut_anywhere_is_refused() {
    let blob = pnd2_encode_multi_typed(&[
        ("id", TypedColumn::Int64(vec![1, 2, 3])),
        ("name", TypedColumn::String(vec!["a".to_string(), "b".to_string(), "c".to_string()])),
    ]);
    assert_eq!(pnd2_decode(&blob).unwrap().len(), 2);
    for k in 0..blob.len() {
        let want = if k < 13 { DecodeError::NotPnd2 } else { DecodeError::CutShort };
        assert_eq!(pnd2_decode(&blob[..k]).unwrap_err(), want);
        assert_eq!(pnd2_decode_projected(&blob[..k], Some(&["id"])).unwrap_err(), want);
    }
    let announced = [b'P', b'N', b'D', b'2', 2, 0, 0, 0, 0, 0, 1, 0, 0];
    assert_eq!(pnd2_decode(&announced).unwrap_err(), DecodeError::CutShort);
    assert_eq!(DecodeError::CutShort.message(), "PND2 blob is cut short");
    assert!(pond_pnd2_decode(&announced).is_none());
    let packed = header(COMPRESSION_ZSTD, 3, 1, &zstd::encode_all(&[1u8, b'a'][..], 1).unwrap());
    assert_eq!(pnd2_decode(&packed).unwrap_err(), DecodeError::CutShort);
}

#[test]
fn a_dictionary_gives_as_many_rows_as_are_asked_for() {
    let values = [i64::MIN, 5, i64::MAX, 5];
    let payload = encode_dict_i64(&values);
    for n in 0..=values.len() {
        let col = decode_dict(&payload, VT_INT64, n);
        assert_eq!(col.i64_data, values[..n].to_vec());
        assert_eq!(col.n_values, n);
    }
}

#[test]
fn an_i64_blob_is_laid_out_byte_by_byte() {
    let blob = pnd2_encode_i64(&[1, -1]);
    let mut want = vec![b'P', b'N', b'D', b'2', PND2_VERSION, 1, 2, 0, 0, 0, 1, 0, COMPRESSION_NONE];
    want.extend_from_slice(&[1, b'v', VT_INT64, ENC_RAW]);
    want.push(1);
    want.extend_from_slice(&(-1i64).to_le_bytes());
    want.extend_from_slice(&1i64.to_le_bytes());
    want.extend_from_slice(&[0, 0, 0, 0]);
    want.extend_from_slice(&[17, 0, 0, 0, VT_INT64]);
    want.extend_from_slice(&1i64.to_le_bytes());
    want.extend_from_slice(&(-1i64).to_le_bytes());
    assert_eq!(blob, want);
}

#[test]
fn all_encodings_keep_extreme_values() {
    let values = vec![i64::MIN, i64::MAX, 0, -1, 1, i64::MIN];
    assert_eq!(decode_bitpack(&encode_bitpack_i64(&values), 6).i64_data, values);
    assert_eq!(decode_rle(&encode_rle_i64(&values), VT_INT64, 6).i64_data, values);
    assert_eq!(decode_dict(&encode_dict_i64(&values), VT_INT64, 6).i64_data, values);
}

#[test]
fn rle_of_floats_keeps_equal_numbers_together() {
    let values = bits(&[1.5, 1.5, 2.0, 2.0, 2.0]);
    let payload = encode_rle_f64(&values);
    assert_eq!(&payload[1..5], &[2, 0, 0, 0]);
    assert_eq!(decode_rle(&payload, VT_FLOAT64, 5).f64_data, values);
}

#[test]
fn run_heavy_needs_long_runs() {
    assert!(is_run_heavy(&vec![4; 100]));
    let all_different: Vec<i64> = (0..100).collect();
    assert!(!is_run_heavy(&all_different));
}

#[test]
fn null_lengths_read_as_empty_strings() {
    let mut payload = vec![VT_STRING];
    payload.extend_from_slice(&1u32.to_le_bytes());
    payload.extend_from_slice(b"x");
    payload.extend_from_slice(&u32::MAX.to_le_bytes());
    let col = decode_raw(&payload, VT_STRING, 2);
    assert_eq!(col.str_data, vec![b"x".to_vec(), Vec::new()]);
}

#[test]
fn typed_columns_make_one_blob() {
    let cols = [
        ("id", TypedColumn::Int64(vec![1, 2])),
        ("price", TypedColumn::Float64(bits(&[0.5, 2.25]))),
        ("name", TypedColumn::String(vec!["a".to_string(), "b".to_string()])),
        ("raw", TypedColumn::Binary(vec![vec![1, 2], vec![]])),
        ("any", TypedColumn::Variant(vec!["{}".to_string(), "3".to_string()])),
    ];
    let blob = pnd2_encode_multi_typed(&cols);
    let back = pnd2_decode(&blob).unwrap();
    assert_eq!(back.len(), 5);
    assert_eq!(back[0].i64_data, vec![1, 2]);
    assert_eq!(back[1].f64_data, bits(&[0.5, 2.25]));
    assert_eq!(back[2].str_data, vec![b"a".to_vec(), b"b".to_vec()]);
    assert_eq!(back[3].vtype, VT_BINARY);
    assert_eq!(back[3].bin_data, vec![vec![1, 2], vec![]]);
    assert_eq!(back[4].vtype, VT_VARIANT);
    assert_eq!(back[4].str_data, vec![b"{}".to_vec(), b"3".to_vec()]);
}

#[test]
fn typed_column_tells_its_type_and_length() {
    let col = TypedColumn::Boolean(vec![true, false, true]);
    assert_eq!(col.vtype(), VT_BOOLEAN);
    assert_eq!(col.len(), 3);
    assert!(!col.is_empty());
    let (min, max) = col.min_max_bytes().unwrap();
    assert_eq!(min, 0i64.to_le_bytes().to_vec());
    assert_eq!(max, 1i64.to_le_bytes().to_vec());
    assert!(TypedColumn::Int64(Vec::new()).is_empty());
}

#[test]
fn handles_give_columns_by_index() {
    let mut enc = PondEncoder::new(2);
    assert!(enc.add_i64_column("id", &[3, 4]));
    assert!(enc.add_f64_column("x", &bits(&[1.0, 2.0])));
    assert!(enc.add_str_column("s", &["a", "bc"]));
    assert!(!enc.add_i64_column("short", &[1]));
    let blob = enc.build();
    let res = pond_pnd2_decode(&blob).unwrap();
    assert_eq!(res.num_columns(), 3);
    assert_eq!(res.column_name(2).unwrap().as_slice(), b"s");
    assert_eq!(res.column_vtype(0), VT_INT64);
    assert_eq!(res.column_len(1), 2);
    assert_eq!(res.column_i64(0).unwrap(), &vec![3, 4]);
    assert_eq!(res.column_f64(1).unwrap(), &bits(&[1.0, 2.0]));
    assert_eq!(res.column_str(2, 1).unwrap().as_slice(), b"bc");
    assert!(res.column_str(2, 2).is_none());
    assert!(res.column_name(3).is_none());
    assert!(pond_pnd2_decode(b"junk").is_none());
}
