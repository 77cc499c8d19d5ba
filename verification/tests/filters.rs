//! Filters over columns and rows.

use pond_core::json::{JsonNumber, JsonValue};
use pond_core::predicate::{
    apply_op_f64, apply_op_i64, can_prune_row_group, cmp_values, eval_predicate, filter_cmp_f64, filter_cmp_i64,
    filter_eq_i64, filter_range_f64, filter_range_i64, like_match, Order,
};
use pond_core::shown::Compared::{Equal, Greater, Less, Never};
use pond_core::shown::{apply_predicates, Compared, Shown, ShownPredicate};

fn bits(values: &[f64]) -> Vec<u64> {
    values.iter().map(|v| v.to_bits()).collect()
}

#[test]
fn test_filter_eq() {
    let data = vec![1, 2, 3, 4, 5, 6, 7, 8];
    let mask = filter_eq_i64(&data, 3);
    assert_eq!(mask, vec![false, false, true, false, false, false, false, false]);
}

#[test]
fn test_filter_gt() {
    let data = vec![1, 2, 3, 4, 5, 6, 7, 8];
    let mask = filter_cmp_i64(&data, ">", 5);
    assert_eq!(mask, vec![false, false, false, false, false, true, true, true]);
}

#[test]
fn test_filter_range() {
    let data = vec![1, 5, 10, 15, 20, 25, 30, 35];
    let mask = filter_range_i64(&data, 10, 25);
    assert_eq!(mask, vec![false, false, true, true, true, true, false, false]);
}

#[test]
fn test_filter_neq() {
    let data = vec![1, 2, 3, 4];
    let mask = filter_cmp_i64(&data, "!=", 2);
    assert_eq!(mask, vec![true, false, true, true]);
}

#[test]
fn test_filter_odd_length() {
    let data = vec![1, 2, 3, 4, 5];
    let mask = filter_eq_i64(&data, 3);
    assert_eq!(mask, vec![false, false, true, false, false]);
}

#[test]
fn floats_compare_as_numbers() {
    let data = bits(&[-1.0, -0.0, 0.0, 2.5, f64::NAN]);
    assert_eq!(filter_cmp_f64(&data, "=", 0f64.to_bits()), vec![false, true, true, false, false]);
    assert_eq!(filter_cmp_f64(&data, "<", 1f64.to_bits()), vec![true, true, true, false, false]);
    assert_eq!(filter_cmp_f64(&data, "!=", 2.5f64.to_bits()), vec![true, true, true, false, true]);
    assert_eq!(
        filter_range_f64(&data, (-1f64).to_bits(), 0f64.to_bits()),
        vec![true, true, true, false, false]
    );
}

#[test]
fn an_unknown_operator_lets_cells_pass() {
    assert!(apply_op_i64(1, "~", 2));
    assert!(!apply_op_i64(1, "=", 2));
    assert!(apply_op_f64(1f64.to_bits(), "<=", 1f64.to_bits()));
}

#[test]
fn pruning_keeps_groups_that_may_match() {
    let min = 10i64.to_le_bytes().to_vec();
    let max = 20i64.to_le_bytes().to_vec();
    assert!(can_prune_row_group(Some(&min), Some(&max), "=", 9));
    assert!(!can_prune_row_group(Some(&min), Some(&max), "=", 15));
    assert!(can_prune_row_group(Some(&min), Some(&max), ">", 20));
    assert!(!can_prune_row_group(Some(&min), Some(&max), ">=", 20));
    assert!(can_prune_row_group(Some(&min), Some(&max), "<", 10));
    assert!(!can_prune_row_group(Some(&min), Some(&max), "!=", 100));
    assert!(!can_prune_row_group(None, Some(&max), "=", 9));
}

#[test]
fn like_patterns() {
    assert!(like_match("alice", "a%"));
    assert!(like_match("alice", "_lic_"));
    assert!(!like_match("alice", "b%"));
    assert!(like_match("", "%"));
    assert!(!like_match("", "_"));
}

#[test]
fn predicates_on_rows() {
    let row = JsonValue::Object(vec![
        ("age".to_string(), JsonValue::Number(JsonNumber::Int(30))),
        ("name".to_string(), JsonValue::String("bob".to_string())),
        ("ok".to_string(), JsonValue::Bool(true)),
    ]);
    let n = |i: i64| JsonValue::Number(JsonNumber::Int(i));
    assert!(eval_predicate(&row, "age", ">", &n(29)));
    assert!(!eval_predicate(&row, "age", ">", &n(30)));
    assert!(eval_predicate(&row, "age", "=", &JsonValue::Number(JsonNumber::Float(30f64.to_bits(), "30.0".to_string()))));
    assert!(eval_predicate(&row, "name", "<", &JsonValue::String("carol".to_string())));
    assert!(eval_predicate(&row, "ok", "!=", &JsonValue::Bool(false)));
    assert!(!eval_predicate(&row, "missing", "=", &JsonValue::Null));
    assert_eq!(cmp_values(Some(&n(1)), &n(2)), Order::Less);
}

fn counted(values: &[i64]) -> Shown {
    Shown::List(values.iter().map(|v| JsonValue::Number(JsonNumber::Int(*v))).collect())
}

fn asks(column: &str, op: &str, compared: Vec<Compared>) -> ShownPredicate {
    ShownPredicate { column: column.to_string(), op: op.to_string(), compared }
}

#[test]
fn results_keep_the_rows_that_pass() {
    let result = || {
        vec![
            ("n".to_string(), counted(&[1, 2, 3])),
            ("n_rows".to_string(), Shown::Single(JsonValue::Number(JsonNumber::Int(3)))),
        ]
    };
    let at_least = |op: &str| asks("n", op, vec![Less, Equal, Greater]);
    let kept = |preds: Vec<ShownPredicate>| apply_predicates(result(), &preds).map(|mut r| r.remove(0).1);
    assert_eq!(apply_predicates(result(), &vec![]), Some(result()));
    assert_eq!(kept(vec![at_least("=")]), Some(counted(&[2])));
    assert_eq!(kept(vec![at_least("!=")]), Some(counted(&[1, 3])));
    assert_eq!(kept(vec![at_least("<=")]), Some(counted(&[1, 2])));
    assert_eq!(kept(vec![at_least(">"), at_least("!=")]), Some(counted(&[3])));
    assert_eq!(kept(vec![at_least("~")]), Some(counted(&[1, 2, 3])));
    assert_eq!(kept(vec![asks("other", "=", vec![Less, Less, Less])]), Some(counted(&[1, 2, 3])));
    assert_eq!(kept(vec![asks("n", "<", vec![Less, Never, Less])]), None);
    assert_eq!(kept(vec![at_least("<"), asks("n", "<", vec![Less, Never, Never])]), Some(counted(&[1])));
}
