//! Tokens, term counts, rankings.

use pond_core::json::{JsonNumber, JsonValue};
use pond_core::ranking::{
    metric_of, modalities, nearest, rank_entries, rank_places, row_vector, stored_vector, text_ranking, top_hits,
    vector_ranking, Metric,
};
use pond_core::search::{row_text, tokenize, Bm25};

fn b(x: f64) -> u64 {
    x.to_bits()
}

#[test]
fn test_tokenize_basic() {
    let toks = tokenize("Hello, world! Hello again.");
    assert_eq!(toks, vec!["hello", "world", "hello", "again"]);
}

#[test]
fn test_tokenize_lowercase() {
    let toks = tokenize("PondStorage POND pond");
    assert_eq!(toks, vec!["pondstorage", "pond", "pond"]);
}

#[test]
fn test_tokenize_removes_stop_words() {
    let toks = tokenize("the quick brown fox jumps past the lazy dog");
    assert_eq!(toks, vec!["quick", "brown", "fox", "jumps", "past", "lazy", "dog"]);
}

#[test]
fn test_tokenize_drops_single_chars() {
    let toks = tokenize("a 1 x apple");
    assert_eq!(toks, vec!["apple"]);
}

#[test]
fn test_tokenize_handles_punctuation() {
    let toks = tokenize("user_id=42; status:'active'");
    assert_eq!(toks, vec!["user_id", "42", "status", "active"]);
}

#[test]
fn test_tokenize_empty_string() {
    assert!(tokenize("").is_empty());
}

#[test]
fn test_tokenize_only_punctuation() {
    assert!(tokenize("...,,,;;;").is_empty());
}

#[test]
fn test_tokenize_unicode_letters() {
    let toks = tokenize("Café résumé");
    assert_eq!(toks, vec!["café", "résumé"]);
}

#[test]
fn a_word_of_one_character_is_no_token() {
    assert_eq!(tokenize("é apple"), vec!["apple"]);
    assert_eq!(tokenize("日 日本"), vec!["日本"]);
}

#[test]
fn terms_are_counted_by_document() {
    let mut stats = Bm25::new();
    assert!(stats.is_empty());
    assert_eq!(stats.add_text("red fox red"), 0);
    assert_eq!(stats.add_text("blue fox"), 1);
    assert_eq!(stats.len(), 2);
    assert_eq!(stats.doc_len(0), 3);
    assert_eq!(stats.term_freq(0, "red"), 2);
    assert_eq!(stats.term_freq(1, "red"), 0);
    assert_eq!(stats.doc_freq("fox"), 2);
    assert_eq!(stats.doc_freq("green"), 0);
    let query: Vec<String> = ["fox", "green", "red", "red"].iter().map(|s| s.to_string()).collect();
    assert_eq!(stats.query_hits(0, &query), vec![(2, 1), (1, 2), (1, 2)]);
    assert_eq!(stats.query_hits(1, &query), vec![(2, 1)]);
    assert!(stats.query_hits(2, &query).is_empty());
    let (k1, b1) = stats.get_params();
    assert_eq!((f64::from_bits(k1), f64::from_bits(b1)), (1.2, 0.75));
    assert_eq!(Bm25::with_params(b(2.0), b(0.5)).get_params(), (b(2.0), b(0.5)));
}

#[test]
fn a_row_text_joins_its_columns() {
    let row = JsonValue::Object(vec![
        ("t".to_string(), JsonValue::String("hello".to_string())),
        ("n".to_string(), JsonValue::Number(JsonNumber::Int(7))),
    ]);
    assert_eq!(row_text(&row, &["t", "n", "none"]), "hello 7 ");
}

#[test]
fn ranking_is_stable_and_in_order() {
    let items = vec![(0, b(3.0)), (1, b(-1.0)), (2, b(3.0)), (3, b(0.5))];
    let up = rank_entries(&items, false);
    assert_eq!(up, vec![(1, b(-1.0)), (3, b(0.5)), (0, b(3.0)), (2, b(3.0))]);
    let down = rank_entries(&items, true);
    assert_eq!(down, vec![(0, b(3.0)), (2, b(3.0)), (3, b(0.5)), (1, b(-1.0))]);
}

#[test]
fn a_long_ranking_is_sorted() {
    let mut x: u64 = 12345;
    let mut items: Vec<(usize, u64)> = Vec::new();
    for i in 0..500 {
        x = x.wrapping_mul(6364136223846793005).wrapping_add(1442695040888963407);
        items.push((i, b(((x >> 33) % 1000) as f64 - 500.0)));
    }
    let ranked = rank_entries(&items, false);
    assert_eq!(ranked.len(), 500);
    for w in ranked.windows(2) {
        let (a, c) = (f64::from_bits(w[0].1), f64::from_bits(w[1].1));
        assert!(a < c || (a == c && w[0].0 < w[1].0));
    }
}

#[test]
fn the_nearest_come_first() {
    let d = vec![b(5.0), b(1.0), b(f64::NAN), b(3.0)];
    assert_eq!(nearest(&d, 2), vec![(1, b(1.0)), (3, b(3.0))]);
    assert_eq!(nearest(&d, 9).len(), 4);
    assert!(nearest(&d, 0).is_empty());
    assert!(nearest(&Vec::new(), 3).is_empty());
}

#[test]
fn searches_need_a_modality() {
    assert!(modalities(3, 5, "", 0, 0, "").is_none());
    assert!(modalities(3, 0, "v", 2, 0, "").is_none());
    assert!(modalities(0, 5, "v", 2, 0, "").is_none());
    let m = modalities(3, 5, "v", 2, 1, "").unwrap();
    assert!(m.vector && !m.text);
    let m = modalities(3, 5, "", 2, 1, "fox").unwrap();
    assert!(!m.vector && m.text);
}

#[test]
fn rows_without_a_distance_or_a_score_are_left_out() {
    let v = vector_ranking(&vec![4, 7, 9], &vec![Some(b(2.0)), None, Some(b(1.0))]);
    assert_eq!(v, vec![(9, b(1.0)), (4, b(2.0))]);
    let t = text_ranking(&vec![4, 7, 9], &vec![b(0.0), b(1.5), b(2.5)]);
    assert_eq!(t, vec![(9, b(2.5)), (7, b(1.5))]);
}

#[test]
fn places_are_gathered_by_entry() {
    let p = rank_places(&vec![vec![5, 3], vec![3, 8]]);
    let flat: Vec<(usize, Vec<(usize, usize)>)> =
        p.iter().map(|(e, t)| (*e, t.iter().map(|x| (x.list, x.rank)).collect())).collect();
    assert_eq!(flat, vec![(5, vec![(0, 1)]), (3, vec![(0, 2), (1, 1)]), (8, vec![(1, 2)])]);
}

#[test]
fn hits_are_the_best_with_what_was_said_of_them() {
    let fused = vec![(5, b(0.1)), (3, b(0.3)), (8, b(0.2))];
    let hits = top_hits(&fused, 2, &vec![(3, b(1.0))], &vec![(8, b(9.0))]);
    assert_eq!(hits.len(), 2);
    assert_eq!((hits[0].row, hits[0].vector_distance, hits[0].text_score), (3, Some(b(1.0)), None));
    assert_eq!((hits[1].row, hits[1].vector_distance, hits[1].text_score), (8, None, Some(b(9.0))));
}

#[test]
fn vectors_are_taken_out_of_rows() {
    let num = |f: f64, t: &str| JsonValue::Number(JsonNumber::Float(b(f), t.to_string()));
    let row = JsonValue::Object(vec![
        ("v".to_string(), JsonValue::Array(vec![num(0.5, "0.5"), JsonValue::Null, JsonValue::Number(JsonNumber::Int(2))])),
        ("s".to_string(), JsonValue::String("[1, 2.5]".to_string())),
    ]);
    assert_eq!(row_vector(&row, "v"), Some(vec![b(0.5), b(2.0)]));
    assert_eq!(row_vector(&row, "s"), None);
    assert_eq!(stored_vector(&row, "s"), Some(vec![b(1.0), b(2.5)]));
    assert_eq!(stored_vector(&row, "none"), None);
    assert_eq!(metric_of("cosine"), Metric::Cosine);
    assert_eq!(metric_of("dot"), Metric::Dot);
    assert_eq!(metric_of("anything"), Metric::L2);
}
