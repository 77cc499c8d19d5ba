//! Searching by text and by vector: what the library counts and ranks, under
//! scores and distances that are computed here.

use pond_core::json::{copy_json, JsonValue};
use pond_core::ranking::{
    candidates, metric_of, modalities, nearest, rank_entries, rank_places, row_vector, text_ranking, top_hits,
    vector_ranking, Metric,
};
use pond_core::search::{row_text, tokenize, Bm25};

struct SearchHit {
    row: JsonValue,
    vector_distance: Option<f64>,
    text_score: Option<f64>,
}

#[derive(Clone, Copy)]
struct SearchWeights {
    vector: f64,
    text: f64,
}

impl Default for SearchWeights {
    fn default() -> Self {
        Self { vector: 1.0, text: 1.0 }
    }
}

fn b(x: f64) -> u64 {
    x.to_bits()
}

fn parse(s: &str) -> JsonValue {
    JsonValue::parse(s.as_bytes()).unwrap()
}

fn id(hit: &SearchHit) -> i64 {
    hit.row.get("id").and_then(|v| v.as_i64()).unwrap()
}

fn dot(a: &[f32], b: &[f32]) -> f64 {
    a.iter().zip(b).map(|(x, y)| *x as f64 * *y as f64).sum()
}

fn distance(metric: Metric, a: &[f32], b: &[f32]) -> f64 {
    match metric {
        Metric::L2 => a.iter().zip(b).map(|(x, y)| (*x as f64 - *y as f64).powi(2)).sum::<f64>().sqrt(),
        Metric::Cosine => 1.0 - dot(a, b) / (dot(a, a).sqrt() * dot(b, b).sqrt()),
        Metric::Dot => -dot(a, b),
    }
}

fn search_vectors(query: &[f32], stored: &[Vec<f32>], metric: &str, limit: usize) -> Vec<(usize, f64)> {
    let distances: Vec<u64> = stored.iter().map(|v| b(distance(metric_of(metric), query, v))).collect();
    nearest(&distances, limit).into_iter().map(|(i, d)| (i, f64::from_bits(d))).collect()
}

fn avgdl(index: &Bm25) -> f64 {
    let total: usize = (0..index.len()).map(|i| index.doc_len(i)).sum();
    total as f64 / index.len() as f64
}

fn score(index: &Bm25, doc: usize, query_terms: &[String]) -> f64 {
    let (k1, b) = index.get_params();
    let (k1, b) = (f64::from_bits(k1), f64::from_bits(b));
    let (n, len) = (index.len() as f64, index.doc_len(doc) as f64);
    let mut total = 0.0;
    for (df, tf) in index.query_hits(doc, query_terms) {
        let (df, tf) = (df as f64, tf as f64);
        let idf = (1.0 + (n - df + 0.5) / (df + 0.5)).ln();
        total += idf * (tf * (k1 + 1.0)) / (tf + k1 * (1.0 - b + b * len / avgdl(index)));
    }
    total
}

fn score_all(index: &Bm25, query_terms: &[String]) -> Vec<(usize, f64)> {
    let scores: Vec<(usize, u64)> = (0..index.len()).map(|d| (d, b(score(index, d, query_terms)))).collect();
    rank_entries(&scores, true).into_iter().map(|(i, s)| (i, f64::from_bits(s))).collect()
}

fn reciprocal_rank_fusion(ranked_lists: &[(&Vec<usize>, f64)], k: usize) -> Vec<(usize, f64)> {
    let lists: Vec<Vec<usize>> = ranked_lists.iter().map(|(l, _)| l.to_vec()).collect();
    let fused: Vec<(usize, u64)> = rank_places(&lists)
        .into_iter()
        .map(|(entry, places)| {
            (entry, b(places.iter().map(|p| ranked_lists[p.list].1 / (k as f64 + p.rank as f64)).sum()))
        })
        .collect();
    rank_entries(&fused, true).into_iter().map(|(i, s)| (i, f64::from_bits(s))).collect()
}

#[allow(clippy::too_many_arguments)]
fn hybrid_search(
    rows: &[JsonValue],
    vector_column: &str,
    query_vector: &[f32],
    text_columns: &[&str],
    query_text: &str,
    condition: Option<&dyn Fn(&JsonValue) -> bool>,
    weights: SearchWeights,
    k: usize,
    metric: &str,
) -> Vec<SearchHit> {
    let ways = match modalities(rows.len(), k, vector_column, query_vector.len(), text_columns.len(), query_text) {
        Some(m) => m,
        None => return Vec::new(),
    };
    let holds: Option<Vec<bool>> = condition.map(|f| rows.iter().map(f).collect());
    let among = candidates(rows.len(), holds.as_ref());
    let mut by_vector: Vec<(usize, u64)> = Vec::new();
    if ways.vector {
        let distances: Vec<Option<u64>> = among
            .iter()
            .map(|i| {
                let v: Vec<f32> =
                    row_vector(&rows[*i], vector_column)?.iter().map(|x| f64::from_bits(*x) as f32).collect();
                if v.len() == query_vector.len() {
                    Some(b(distance(metric_of(metric), query_vector, &v)))
                } else {
                    None
                }
            })
            .collect();
        by_vector = vector_ranking(&among, &distances);
    }
    let mut by_text: Vec<(usize, u64)> = Vec::new();
    if ways.text {
        let terms = tokenize(query_text);
        let mut index = Bm25::new();
        for i in &among {
            index.add_text(&row_text(&rows[*i], text_columns));
        }
        let scores: Vec<u64> = (0..among.len()).map(|d| b(score(&index, d, &terms))).collect();
        by_text = text_ranking(&among, &scores);
    }
    let vector_rows: Vec<usize> = by_vector.iter().map(|x| x.0).collect();
    let text_rows: Vec<usize> = by_text.iter().map(|x| x.0).collect();
    let lists = [(&vector_rows, weights.vector), (&text_rows, weights.text)];
    let fused: Vec<(usize, u64)> = reciprocal_rank_fusion(&lists, 60).into_iter().map(|(i, s)| (i, b(s))).collect();
    top_hits(&fused, k, &by_vector, &by_text)
        .into_iter()
        .map(|h| SearchHit {
            row: copy_json(&rows[h.row]),
            vector_distance: h.vector_distance.map(f64::from_bits),
            text_score: h.text_score.map(f64::from_bits),
        })
        .collect()
}

#[test]
fn test_bm25_empty_index() {
    let bm = Bm25::new();
    assert!(bm.is_empty());
    let scores = score_all(&bm, &["hello".to_string()]);
    assert!(scores.is_empty());
}

#[test]
fn test_bm25_single_doc() {
    let mut bm = Bm25::new();
    let _ = bm.add_text("the quick brown fox");
    let scores = score_all(&bm, &["quick".to_string()]);
    assert_eq!(scores.len(), 1);
    assert!(scores[0].1 > 0.0, "single matching doc should have positive score");
}

#[test]
fn test_bm25_term_not_in_corpus() {
    let mut bm = Bm25::new();
    bm.add_text("hello world");
    let scores = score_all(&bm, &["missing".to_string()]);
    assert_eq!(scores.len(), 1);
    // The doc has no matching terms → score is 0.0.
    assert_eq!(scores[0].1, 0.0);
}

#[test]
fn test_bm25_rare_term_beats_common_term() {
    let mut bm = Bm25::new();
    // "common" appears in all 3 docs; "rare" appears in only 1.
    bm.add_text("common cat");
    bm.add_text("common dog");
    bm.add_text("common rare bird");
    let scores = score_all(&bm, &["common".to_string(), "rare".to_string()]);
    // Doc 2 (the only one with "rare") should rank highest.
    assert_eq!(scores[0].0, 2, "rare-term doc should rank first");
}

#[test]
fn test_bm25_term_frequency_matters() {
    let mut bm = Bm25::new();
    bm.add_text("cat cat cat"); // high tf
    bm.add_text("cat");          // low tf
    let scores = score_all(&bm, &["cat".to_string()]);
    // Higher tf should rank first (BM25 saturates with k1 but still
    // rewards higher tf for short queries).
    assert_eq!(scores[0].0, 0, "doc with higher tf should rank first");
}

#[test]
fn test_bm25_short_docs_score_higher() {
    // With identical tf, a shorter doc should score higher (b>0
    // normalizes by length).
    let mut bm = Bm25::new();
    bm.add_text("cat dog fish bird turtle lizard snake");  // long
    bm.add_text("cat");                                       // short
    let scores = score_all(&bm, &["cat".to_string()]);
    assert_eq!(scores[0].0, 1, "shorter doc should rank higher for same tf");
}

#[test]
fn test_bm25_idf_is_non_negative() {
    // Term appears in every document — Lucene tweak keeps IDF >= 0.
    let mut bm = Bm25::new();
    bm.add_text("cat dog");
    bm.add_text("cat fish");
    bm.add_text("cat bird");
    let scores = score_all(&bm, &["cat".to_string()]);
    // With the Lucene tweak, IDF is ln(1 + 0.5/3.5) > 0, so all
    // scores should be >= 0.
    for (_, s) in &scores {
        assert!(*s >= 0.0, "BM25 score should be non-negative with Lucene IDF");
    }
}

#[test]
fn test_bm25_avgdl_updates() {
    let mut bm = Bm25::new();
    bm.add_text("one two three"); // 3 tokens
    assert!((avgdl(&bm) - 3.0).abs() < 1e-9);
    bm.add_text("four five");      // 2 tokens
    assert!((avgdl(&bm) - 2.5).abs() < 1e-9);
    bm.add_text("six");            // 1 token
    assert!((avgdl(&bm) - 2.0).abs() < 1e-9);
}

#[test]
fn test_bm25_multi_term_query() {
    let mut bm = Bm25::new();
    bm.add_text("the red fox jumps");
    bm.add_text("the brown dog sleeps");
    bm.add_text("the red dog barks");
    // Query: "red dog" — doc 2 has both, doc 0 has one, doc 1 has one.
    let scores = score_all(&bm, &["red".to_string(), "dog".to_string()]);
    assert_eq!(scores[0].0, 2, "doc with both terms should rank first");
}

#[test]
fn test_bm25_custom_params() {
    // b=0 disables length normalization; k1 controls tf saturation.
    // With b=0 and equal tf, length should have NO effect → scores equal.
    let mut bm = Bm25::with_params(b(1.2), b(0.0));
    bm.add_text("cat dog bird turtle");  // 4 tokens, tf(cat)=1
    bm.add_text("cat");                   // 1 token,  tf(cat)=1
    let scores = score_all(&bm, &["cat".to_string()]);
    // Same tf, same IDF, b=0 → identical scores.
    let diff = (scores[0].1 - scores[1].1).abs();
    assert!(diff < 1e-9, "b=0 with equal tf should produce equal scores, got diff={}", diff);

    // Now confirm b>0 length-normalizes: the shorter doc should win.
    let mut bm2 = Bm25::with_params(b(1.2), b(0.75));
    bm2.add_text("cat dog bird turtle");
    bm2.add_text("cat");
    let scores2 = score_all(&bm2, &["cat".to_string()]);
    assert_eq!(scores2[0].0, 1, "with b>0, shorter doc should win for same tf");
}

// ---- RRF ----

#[test]
fn test_rrf_single_list() {
    let list = vec![3usize, 1, 2];
    let fused = reciprocal_rank_fusion(&[(&list, 1.0)], 60);
    assert_eq!(fused.len(), 3);
    // Rank 1 (idx 3) should have the highest score.
    assert_eq!(fused[0].0, 3);
    assert!(fused[0].1 > fused[1].1);
}

#[test]
fn test_rrf_two_lists_overlap() {
    // Both lists agree on rank 1 → that doc should win.
    let a = vec![1usize, 2, 3];
    let b = vec![1, 3, 2];
    let fused = reciprocal_rank_fusion(&[(&a, 1.0), (&b, 1.0)], 60);
    assert_eq!(fused[0].0, 1, "rank-1 in both lists should fuse to top");
}

#[test]
fn test_rrf_two_lists_disagree() {
    // A ranks 1 first; B ranks 2 first. With equal weights, the
    // doc that appears in BOTH lists should still beat one that's
    // only in one list.
    let a = vec![1usize, 2, 3];
    let b = vec![2, 3, 4]; // 4 only in B, at rank 3
    let fused = reciprocal_rank_fusion(&[(&a, 1.0), (&b, 1.0)], 60);
    // Top should be either 1 or 2 (both have a rank-1 appearance
    // across the two lists). Doc 4 should be last (only one list, rank 3).
    assert!(fused[0].0 == 1 || fused[0].0 == 2);
    assert_eq!(fused.last().unwrap().0, 4);
}

#[test]
fn test_rrf_weights() {
    let a = vec![1usize, 2];
    let b = vec![2, 1];
    // Heavy weight on A → A's rank-1 (doc 1) should win.
    let fused = reciprocal_rank_fusion(&[(&a, 10.0), (&b, 1.0)], 60);
    assert_eq!(fused[0].0, 1);
}

#[test]
fn test_rrf_empty_lists() {
    let fused = reciprocal_rank_fusion(&[], 60);
    assert!(fused.is_empty());
}

#[test]
fn test_rrf_k_smoothing() {
    // Larger k → scores closer together (more smoothing).
    let a = vec![1usize, 2];
    let fused_small_k = reciprocal_rank_fusion(&[(&a, 1.0)], 1);
    let fused_large_k = reciprocal_rank_fusion(&[(&a, 1.0)], 1000);
    let diff_small = fused_small_k[0].1 - fused_small_k[1].1;
    let diff_large = fused_large_k[0].1 - fused_large_k[1].1;
    assert!(diff_small > diff_large, "smaller k should produce bigger score gaps");
}

#[test]
fn test_rrf_disjoint_lists() {
    let a = vec![1usize, 2, 3];
    let b = vec![4, 5, 6];
    let fused = reciprocal_rank_fusion(&[(&a, 1.0), (&b, 1.0)], 60);
    assert_eq!(fused.len(), 6);
    // Doc 1 (rank 1 in A) and doc 4 (rank 1 in B) should tie for top.
    assert!((fused[0].1 - fused[1].1).abs() < 1e-9);
    assert!(fused[0].0 == 1 || fused[0].0 == 4);
}

// ---- Hybrid search ----

#[test]
fn test_hybrid_search_vector_only() {
    let rows = vec![
        parse(r#"{"id": 1, "vec": [1.0, 0.0]}"#),
        parse(r#"{"id": 2, "vec": [0.0, 1.0]}"#),
        parse(r#"{"id": 3, "vec": [1.0, 1.0]}"#),
    ];
    let hits = hybrid_search(
        &rows,
        "vec",
        &[1.0, 0.0],
        &[],
        "",
        None,
        SearchWeights::default(),
        2,
        "l2",
    );
    assert_eq!(hits.len(), 2);
    // Closest to [1.0, 0.0] is row 0 (distance 0), then row 2 (distance 1).
    assert_eq!(id(&hits[0]), 1);
    assert_eq!(id(&hits[1]), 3);
    assert!(hits[0].vector_distance.unwrap() < hits[1].vector_distance.unwrap());
    assert!(hits[0].text_score.is_none());
}

#[test]
fn test_hybrid_search_text_only() {
    let rows = vec![
        parse(r#"{"id": 1, "text": "the quick brown fox"}"#),
        parse(r#"{"id": 2, "text": "the lazy dog"}"#),
        parse(r#"{"id": 3, "text": "fox fox fox"}"#),
    ];
    let hits = hybrid_search(
        &rows,
        "",
        &[],
        &["text"],
        "fox",
        None,
        SearchWeights::default(),
        3,
        "l2",
    );
    // Only docs 1 and 3 contain "fox" — doc 2 has no match and is
    // filtered out (BM25 score 0 doesn't make the text ranking).
    assert_eq!(hits.len(), 2);
    // Doc 3 has "fox" 3 times → highest BM25 score.
    assert_eq!(id(&hits[0]), 3);
    assert!(hits[0].text_score.unwrap() > 0.0);
    assert!(hits[0].vector_distance.is_none());
}

#[test]
fn test_hybrid_search_both_modalities() {
    let rows = vec![
        parse(r#"{"id": 1, "vec": [1.0, 0.0], "text": "cat cat cat"}"#),
        parse(r#"{"id": 2, "vec": [0.0, 1.0], "text": "dog dog dog"}"#),
        parse(r#"{"id": 3, "vec": [1.0, 1.0], "text": "cat dog"}"#),
    ];
    // Query: vector=[1.0, 0.0], text="cat"
    // Vector ranks: 1 (dist 0), 3 (dist 1), 2 (dist sqrt(2))
    // Text ranks: 1 (cat x3, high score), 3 (cat x1, lower score)
    // RRF should put doc 1 first (rank 1 in both lists).
    let hits = hybrid_search(
        &rows,
        "vec",
        &[1.0, 0.0],
        &["text"],
        "cat",
        None,
        SearchWeights::default(),
        3,
        "l2",
    );
    assert_eq!(hits.len(), 3);
    assert_eq!(id(&hits[0]), 1, "doc 1 should win both modalities");
    assert!(hits[0].vector_distance.is_some());
    assert!(hits[0].text_score.is_some());
}

#[test]
fn test_hybrid_search_with_where_filter() {
    let rows = vec![
        parse(r#"{"id": 1, "vec": [1.0, 0.0], "active": true}"#),
        parse(r#"{"id": 2, "vec": [0.5, 0.5], "active": false}"#),
        parse(r#"{"id": 3, "vec": [0.9, 0.1], "active": true}"#),
    ];
    // Filter: only active=true.
    let hits = hybrid_search(
        &rows,
        "vec",
        &[1.0, 0.0],
        &[],
        "",
        Some(&|row: &JsonValue| row.get("active").and_then(|v| v.as_bool()).unwrap_or(false)),
        SearchWeights::default(),
        5,
        "l2",
    );
    assert_eq!(hits.len(), 2, "should only return active rows");
    for hit in &hits {
        assert_eq!(hit.row.get("active"), Some(&JsonValue::Bool(true)));
    }
}

#[test]
fn test_hybrid_search_no_modality_returns_empty() {
    let rows = vec![parse(r#"{"id": 1}"#)];
    let hits = hybrid_search(
        &rows,
        "",
        &[],
        &[],
        "",
        None,
        SearchWeights::default(),
        5,
        "l2",
    );
    assert!(hits.is_empty());
}

#[test]
fn test_hybrid_search_empty_rows() {
    let hits = hybrid_search(
        &[],
        "vec",
        &[1.0, 0.0],
        &["text"],
        "query",
        None,
        SearchWeights::default(),
        5,
        "l2",
    );
    assert!(hits.is_empty());
}

#[test]
fn test_hybrid_search_k_zero() {
    let rows = vec![parse(r#"{"id": 1, "vec": [1.0, 0.0]}"#)];
    let hits = hybrid_search(
        &rows,
        "vec",
        &[1.0, 0.0],
        &[],
        "",
        None,
        SearchWeights::default(),
        0,
        "l2",
    );
    assert!(hits.is_empty());
}

#[test]
fn test_hybrid_search_weights_affect_ranking() {
    let rows = vec![
        // Doc 0: bad vector match, perfect text match
        parse(r#"{"id": 1, "vec": [0.0, 1.0], "text": "cat cat cat"}"#),
        // Doc 1: perfect vector match, no text match
        parse(r#"{"id": 2, "vec": [1.0, 0.0], "text": "dog dog dog"}"#),
    ];
    // Vector ranking: [1, 0] (doc 1 distance 0, doc 0 distance 1)
    // Text ranking:   [0]    (only doc 0 matches "cat")
    //
    // The rank-1-vs-rank-2 gap in RRF is small (1/61 vs 1/62), so to
    // make the vector modality dominate we need a large vector weight.
    // w_v * (1/61 - 1/62) > w_t * (1/61)  ⇒  w_v > 62 * w_t.
    //
    // With w_v=100, w_t=1: doc 1 wins (perfect vector match).
    let hits_vec = hybrid_search(
        &rows,
        "vec",
        &[1.0, 0.0],
        &["text"],
        "cat",
        None,
        SearchWeights { vector: 100.0, text: 1.0 },
        2,
        "l2",
    );
    assert_eq!(id(&hits_vec[0]), 2);

    // With w_v=1, w_t=100: doc 0 wins (text match dominates).
    let hits_text = hybrid_search(
        &rows,
        "vec",
        &[1.0, 0.0],
        &["text"],
        "cat",
        None,
        SearchWeights { vector: 1.0, text: 100.0 },
        2,
        "l2",
    );
    assert_eq!(id(&hits_text[0]), 1);
}

#[test]
fn test_hybrid_search_cosine_metric() {
    let rows = vec![
        parse(r#"{"id": 1, "vec": [1.0, 0.0]}"#),
        parse(r#"{"id": 2, "vec": [2.0, 0.0]}"#),  // same direction, larger magnitude
        parse(r#"{"id": 3, "vec": [0.0, 1.0]}"#),
    ];
    let hits = hybrid_search(
        &rows,
        "vec",
        &[1.0, 0.0],
        &[],
        "",
        None,
        SearchWeights::default(),
        3,
        "cosine",
    );
    // Cosine distance is 0 for same direction → docs 1 and 2 tie at distance 0.
    assert!((hits[0].vector_distance.unwrap() - 0.0).abs() < 1e-6);
    assert!((hits[1].vector_distance.unwrap() - 0.0).abs() < 1e-6);
    // Orthogonal doc 3 has cosine distance 1.0.
    assert!((hits[2].vector_distance.unwrap() - 1.0).abs() < 1e-6);
}

#[test]
fn test_hybrid_search_dot_metric() {
    let rows = vec![
        parse(r#"{"id": 1, "vec": [1.0, 1.0]}"#),
        parse(r#"{"id": 2, "vec": [3.0, 3.0]}"#),   // higher dot = "closer"
        parse(r#"{"id": 3, "vec": [0.0, 0.0]}"#),
    ];
    let hits = hybrid_search(
        &rows,
        "vec",
        &[1.0, 1.0],
        &[],
        "",
        None,
        SearchWeights::default(),
        3,
        "dot",
    );
    // Doc 2 (dot=6) should be first; doc 1 (dot=2) second; doc 3 (dot=0) last.
    assert_eq!(id(&hits[0]), 2);
    assert_eq!(id(&hits[1]), 1);
    assert_eq!(id(&hits[2]), 3);
}

#[test]
fn test_hybrid_search_missing_vector_column_skipped() {
    let rows = vec![
        parse(r#"{"id": 1, "vec": [1.0, 0.0]}"#),
        parse(r#"{"id": 2, "text": "no vector here"}"#),
        parse(r#"{"id": 3, "vec": [0.9, 0.1]}"#),
    ];
    let hits = hybrid_search(
        &rows,
        "vec",
        &[1.0, 0.0],
        &[],
        "",
        None,
        SearchWeights::default(),
        5,
        "l2",
    );
    // Doc 2 has no "vec" column → skipped. Only docs 1 and 3 returned.
    assert_eq!(hits.len(), 2);
    for hit in &hits {
        assert!(hit.row.get("vec").is_some());
    }
}

#[test]
fn test_hybrid_search_dimension_mismatch_skipped() {
    let rows = vec![
        parse(r#"{"id": 1, "vec": [1.0, 0.0]}"#),
        parse(r#"{"id": 2, "vec": [1.0, 0.0, 0.0]}"#),  // wrong dim
    ];
    let hits = hybrid_search(
        &rows,
        "vec",
        &[1.0, 0.0],
        &[],
        "",
        None,
        SearchWeights::default(),
        5,
        "l2",
    );
    // Only the dimension-matching doc is returned.
    assert_eq!(hits.len(), 1);
    assert_eq!(id(&hits[0]), 1);
}

#[test]
fn test_hybrid_search_multi_text_column() {
    let rows = vec![
        parse(r#"{"id": 1, "title": "cat", "body": "dog"}"#),
        parse(r#"{"id": 2, "title": "dog", "body": "cat cat"}"#),
        parse(r#"{"id": 3, "title": "bird", "body": "fish"}"#),
    ];
    // Search across both columns for "cat".
    let hits = hybrid_search(
        &rows,
        "",
        &[],
        &["title", "body"],
        "cat",
        None,
        SearchWeights::default(),
        3,
        "l2",
    );
    // Doc 2 has "cat" twice (in body) → highest score.
    assert_eq!(id(&hits[0]), 2);
}

#[test]
fn test_hybrid_search_returns_at_most_k() {
    let rows: Vec<JsonValue> = (0..10)
        .map(|i| parse(&format!("{{\"id\": {}, \"vec\": [{}.0, 0.0]}}", i, i)))
        .collect();
    let hits = hybrid_search(
        &rows,
        "vec",
        &[0.0, 0.0],
        &[],
        "",
        None,
        SearchWeights::default(),
        3,
        "l2",
    );
    assert_eq!(hits.len(), 3);
}

#[test]
fn test_search_vectors_l2() {
    let query = vec![1.0, 0.0];
    let stored = vec![vec![1.0, 0.0], vec![0.0, 1.0], vec![2.0, 0.0]];
    let results = search_vectors(&query, &stored, "l2", 2);
    assert_eq!(results.len(), 2);
    assert_eq!(results[0].0, 0);
}

#[test]
fn test_search_vectors_cosine() {
    let query = vec![1.0, 0.0];
    let stored = vec![
        vec![2.0, 0.0],    // same direction → cosine 0
        vec![0.0, 1.0],    // orthogonal → cosine 1
        vec![-1.0, 0.0],   // opposite → cosine 2
    ];
    let results = search_vectors(&query, &stored, "cosine", 3);
    assert_eq!(results[0].0, 0); // same direction is closest
    assert_eq!(results[2].0, 2); // opposite is farthest
}

#[test]
fn test_search_vectors_empty() {
    let query = vec![1.0, 2.0];
    let stored: Vec<Vec<f32>> = vec![];
    assert!(search_vectors(&query, &stored, "l2", 10).is_empty());
}

#[test]
fn test_search_vectors_dot() {
    let query = vec![1.0, 1.0];
    let stored = vec![
        vec![3.0, 3.0],   // dot = 6 (highest)
        vec![1.0, 0.0],   // dot = 1
        vec![0.0, 0.0],   // dot = 0 (lowest)
    ];
    let results = search_vectors(&query, &stored, "dot", 2);
    assert_eq!(results[0].0, 0); // highest dot = closest
}
