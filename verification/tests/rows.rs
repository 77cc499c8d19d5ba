//! Rows: written, read back, filtered by functions and by tenants.

use pond_core::blob::pnd2_decode;
use pond_core::collection::{read_collection_as_json_rows_filtered, read_rows, rows_seen, StoredGroup};
use pond_core::infer::{build_typed_column, json_to_typed_columns};
use pond_core::json::{JsonNumber, JsonValue};
use pond_core::policy::{add_tenant_column, RlsPolicies};
use pond_core::predicate::eval_predicate;
use pond_core::rows::{decode_cols_to_rows, determine_rowid, read_rows_as_json, CellExtras, RowGroup};
use pond_core::sql::{mark_rows, prepare_sql, select_result, select_rows, sql_result_columns, JoinStep};
use pond_core::table::{decode, encode, Bounds, Cells, ColumnPredicate, Target, Values};
use pond_core::typed::{pnd2_encode_multi_typed, TypedColumn};
use pond_core::udf::extract_udf_calls_from_sql;
use pond_core::values::{python_to_json, python_values_to_typed_column, HostValue};
use pond_core::where_clause::{parse_where_clause, FloatReading, FloatTable};

fn texts(v: &[&str]) -> Vec<String> {
    v.iter().map(|s| s.to_string()).collect()
}

fn no_floats() -> FloatTable {
    FloatTable { entries: Vec::new() }
}

fn whole(i: i64) -> JsonValue {
    JsonValue::Number(JsonNumber::Int(i))
}

fn text(s: &str) -> JsonValue {
    JsonValue::String(s.to_string())
}

fn parse(s: &str) -> JsonValue {
    JsonValue::parse(s.as_bytes()).unwrap()
}

fn parse_rows(s: &str) -> Vec<JsonValue> {
    match parse(s) {
        JsonValue::Array(rows) => rows,
        _ => panic!("no list"),
    }
}

#[test]
fn test_extract_udf_calls_simple() {
    let udfs = vec!["is_adult".to_string()];
    let (cleaned, calls) = extract_udf_calls_from_sql("SELECT * FROM users WHERE is_adult(age)", &udfs);
    assert_eq!(calls.len(), 1);
    assert_eq!(calls[0].0, "is_adult");
    assert_eq!(calls[0].1, vec!["age".to_string()]);
    assert!(cleaned.contains("_udf_marker_0 = 1"));
    assert!(!cleaned.contains("is_adult(age)"));
}

#[test]
fn test_extract_udf_calls_multiple() {
    let udfs = vec!["is_adult".to_string(), "starts_with_a".to_string()];
    let (cleaned, calls) =
        extract_udf_calls_from_sql("SELECT * FROM users WHERE is_adult(age) AND starts_with_a(name)", &udfs);
    assert_eq!(calls.len(), 2);
    assert_eq!(calls[0].0, "is_adult");
    assert_eq!(calls[0].1, vec!["age".to_string()]);
    assert_eq!(calls[1].0, "starts_with_a");
    assert_eq!(calls[1].1, vec!["name".to_string()]);
    assert!(cleaned.contains("_udf_marker_0 = 1"));
    assert!(cleaned.contains("_udf_marker_1 = 1"));
}

#[test]
fn test_extract_udf_calls_multi_col() {
    let udfs = vec!["validate".to_string()];
    let (cleaned, calls) = extract_udf_calls_from_sql("SELECT * FROM t WHERE validate(a, b, c)", &udfs);
    assert_eq!(calls.len(), 1);
    assert_eq!(calls[0].0, "validate");
    assert_eq!(calls[0].1, vec!["a".to_string(), "b".to_string(), "c".to_string()]);
    assert!(cleaned.contains("_udf_marker_0 = 1"));
}

#[test]
fn test_extract_udf_calls_word_boundary() {
    let udfs = vec!["is_adult".to_string()];
    let (cleaned, calls) = extract_udf_calls_from_sql("SELECT * FROM users WHERE my_is_adult(age)", &udfs);
    assert_eq!(calls.len(), 0);
    assert!(cleaned.contains("my_is_adult(age)"));
}

#[test]
fn test_extract_udf_calls_no_udfs_registered() {
    let (cleaned, calls) = extract_udf_calls_from_sql("SELECT * FROM users WHERE age >= 18", &[]);
    assert_eq!(calls.len(), 0);
    assert_eq!(cleaned, "SELECT * FROM users WHERE age >= 18");
}

#[test]
fn test_extract_udf_calls_with_or() {
    let udfs = vec!["is_adult".to_string()];
    let (cleaned, calls) =
        extract_udf_calls_from_sql("SELECT * FROM users WHERE is_adult(age) OR city = 'NYC'", &udfs);
    assert_eq!(calls.len(), 1);
    assert!(cleaned.contains("_udf_marker_0 = 1 OR city = 'NYC'"));
}

#[test]
fn test_extract_udf_calls_preserves_non_udf_sql() {
    let udfs = vec!["is_adult".to_string()];
    let (cleaned, calls) =
        extract_udf_calls_from_sql("SELECT name, age FROM users WHERE age >= 18 AND city = 'NYC'", &udfs);
    assert_eq!(calls.len(), 0);
    assert_eq!(cleaned, "SELECT name, age FROM users WHERE age >= 18 AND city = 'NYC'");
}

/// The rows of a collection with one row group.
fn store(cols: &[(&str, TypedColumn)]) -> Vec<(String, JsonValue)> {
    let blob = pnd2_encode_multi_typed(cols);
    let group = StoredGroup { columns: pnd2_decode(&blob).unwrap(), extras: Vec::new(), mask: None };
    read_collection_as_json_rows_filtered(&vec![group], &Vec::new(), &texts(&["_rowid"]))
}

/// A SELECT of all columns, with a function in its condition.
fn select_with(sql: &str, udf: &str, rows: &[(String, JsonValue)], accepts: &dyn Fn(&[i64], &[String]) -> bool) -> Vec<String> {
    let (cleaned, calls) = prepare_sql(sql, &texts(&[udf]));
    let mut rows_only: Vec<JsonValue> = Vec::new();
    for (_, r) in rows {
        rows_only.push(pond_core::json::copy_json(r));
    }
    let joined = select_rows(&rows_only, &None, &Vec::new());
    let mut accepted: Vec<Vec<bool>> = Vec::new();
    for row in &joined {
        let mut verdicts = Vec::new();
        for (_, args) in &calls {
            let ints: Vec<i64> = args.iter().filter_map(|a| row.get(a).and_then(|v| v.as_i64())).collect();
            let strs: Vec<String> =
                args.iter().filter_map(|a| row.get(a).and_then(|v| v.as_str()).map(|s| s.clone())).collect();
            verdicts.push(accepts(&ints, &strs));
        }
        accepted.push(verdicts);
    }
    let marked = mark_rows(&joined, &accepted);
    let condition = cleaned.split(" WHERE ").nth(1).unwrap();
    let preds = parse_where_clause(condition, &no_floats()).unwrap();
    let holds: Vec<bool> =
        marked.iter().map(|r| preds.iter().all(|(c, o, v)| eval_predicate(r, c, o, v))).collect();
    let cols = select_result(&marked, &holds, &Vec::new());
    assert!(cols.iter().all(|(n, _)| !n.starts_with('_')));
    let mut names = Vec::new();
    for (n, values) in cols {
        if n == "name" {
            for v in values {
                names.push(v.as_str().unwrap().clone());
            }
        }
    }
    names
}

#[test]
fn test_udf_is_adult() {
    let rows = store(&[
        ("name", TypedColumn::String(texts(&["alice", "bob", "carol"]))),
        ("age", TypedColumn::Int64(vec![25, 15, 30])),
    ]);
    let names = select_with("SELECT * FROM users WHERE is_adult(age)", "is_adult", &rows, &|i, _| i[0] >= 18);
    assert_eq!(names.len(), 2, "Expected 2 adult rows, got {:?}", names);
    assert!(names.contains(&"alice".to_string()));
    assert!(names.contains(&"carol".to_string()));
    assert!(!names.contains(&"bob".to_string()));
}

#[test]
fn test_udf_starts_with_a() {
    let rows = store(&[("name", TypedColumn::String(texts(&["alice", "bob", "aaron", "charlie"])))]);
    let names = select_with("SELECT * FROM users WHERE starts_with_a(name)", "starts_with_a", &rows, &|_, s| {
        s[0].starts_with('a')
    });
    assert_eq!(names.len(), 2, "Expected 2 names starting with 'a', got {:?}", names);
    assert!(names.contains(&"alice".to_string()));
    assert!(names.contains(&"aaron".to_string()));
}

#[test]
fn test_udf_multiple_columns() {
    let rows = store(&[
        ("name", TypedColumn::String(texts(&["alice", "bob", "carol"]))),
        ("age", TypedColumn::Int64(vec![25, 30, 20])),
        ("score", TypedColumn::Int64(vec![85, 90, 95])),
    ]);
    let names = select_with("SELECT * FROM users WHERE is_eligible(age, score)", "is_eligible", &rows, &|i, _| {
        i[0] >= 21 && i[1] >= 90
    });
    assert_eq!(names.len(), 1, "Expected 1 eligible row, got {:?}", names);
    assert!(names.contains(&"bob".to_string()));
}

#[test]
fn test_udf_combined_with_sql_condition() {
    let rows = store(&[
        ("name", TypedColumn::String(texts(&["alice", "bob", "carol"]))),
        ("age", TypedColumn::Int64(vec![25, 30, 20])),
        ("city", TypedColumn::String(texts(&["NYC", "LA", "NYC"]))),
    ]);
    let sql = "SELECT * FROM users WHERE is_adult(age) AND city = 'NYC'";
    let names = select_with(sql, "is_adult", &rows, &|i, _| i[0] >= 21);
    assert_eq!(names.len(), 1, "Expected 1 row, got {:?}", names);
    assert!(names.contains(&"alice".to_string()));
}

#[test]
fn test_rls_policy_management() {
    let mut policies = RlsPolicies::new();
    assert_eq!(policies.get_rls_policy("users"), None);
    policies.set_rls_policy("users", "tenant_123");
    assert_eq!(policies.get_rls_policy("users"), Some("tenant_123".to_string()));
    assert!(policies.clear_rls_policy("users"));
    assert_eq!(policies.get_rls_policy("users"), None);
    assert!(!policies.clear_rls_policy("users"));
}

/// Writes columns under the policy of a collection.
fn write_under(policies: &RlsPolicies, collection: &str, cols: Vec<(String, TypedColumn)>) -> Vec<(String, JsonValue)> {
    let mut cols = cols;
    let tenant = policies.get_rls_policy(collection);
    add_tenant_column(&mut cols, tenant.as_deref());
    let named: Vec<(&str, TypedColumn)> = {
        let mut v = Vec::new();
        for (n, c) in &cols {
            let copy = match c {
                TypedColumn::String(s) => TypedColumn::String(s.clone()),
                TypedColumn::Int64(i) => TypedColumn::Int64(i.clone()),
                _ => panic!("only texts and numbers here"),
            };
            v.push((n.as_str(), copy));
        }
        v
    };
    store(&named)
}

/// Reads a column under the policy of a collection.
fn read_under(
    policies: &RlsPolicies,
    collection: &str,
    rows: &Vec<(String, JsonValue)>,
    columns: Option<&Vec<String>>,
    column: &str,
) -> Option<Vec<JsonValue>> {
    let tenant = policies.get_rls_policy(collection);
    let seen = rows_seen(rows, tenant.as_deref());
    let cols = read_rows(&seen, &Vec::new(), &Vec::new(), columns);
    cols.into_iter().find(|(n, _)| n == column).map(|(_, v)| v.into_iter().map(|c| c.unwrap()).collect())
}

#[test]
fn test_rls_write_auto_adds_tenant() {
    let mut policies = RlsPolicies::new();
    policies.set_rls_policy("users", "tenant_A");
    let rows = write_under(
        &policies,
        "users",
        vec![
            ("name".to_string(), TypedColumn::String(texts(&["alice", "bob"]))),
            ("age".to_string(), TypedColumn::Int64(vec![25, 30])),
        ],
    );
    let tenants = read_under(&policies, "users", &rows, Some(&texts(&["_tenant"])), "_tenant").unwrap();
    assert_eq!(tenants.len(), 2);
    assert!(tenants.iter().all(|t| *t == text("tenant_A")));
}

#[test]
fn test_rls_read_filters_by_tenant() {
    let mut policies = RlsPolicies::new();
    let rows = write_under(
        &policies,
        "users",
        vec![
            ("name".to_string(), TypedColumn::String(texts(&["alice", "bob", "carol"]))),
            ("_tenant".to_string(), TypedColumn::String(texts(&["tenant_A", "tenant_A", "tenant_B"]))),
        ],
    );
    policies.set_rls_policy("users", "tenant_A");
    let names = read_under(&policies, "users", &rows, None, "name").unwrap();
    assert_eq!(names.len(), 2, "Expected 2 rows for tenant_A, got {:?}", names);
    assert!(names.contains(&text("alice")));
    assert!(names.contains(&text("bob")));

    policies.set_rls_policy("users", "tenant_B");
    let names = read_under(&policies, "users", &rows, None, "name").unwrap();
    assert_eq!(names.len(), 1, "Expected 1 row for tenant_B, got {:?}", names);
    assert!(names.contains(&text("carol")));

    policies.clear_rls_policy("users");
    let names = read_under(&policies, "users", &rows, None, "name").unwrap();
    assert_eq!(names.len(), 3, "Expected 3 rows after clearing RLS, got {:?}", names);
}

#[test]
fn test_rls_multiple_tenants_isolation() {
    let mut policies = RlsPolicies::new();
    let rows = write_under(
        &policies,
        "orders",
        vec![
            ("id".to_string(), TypedColumn::Int64(vec![1, 2, 3, 4])),
            ("product".to_string(), TypedColumn::String(texts(&["widget", "gadget", "widget", "gizmo"]))),
            ("_tenant".to_string(), TypedColumn::String(texts(&["t1", "t1", "t2", "t2"]))),
        ],
    );
    policies.set_rls_policy("orders", "t1");
    let ids = read_under(&policies, "orders", &rows, None, "id").unwrap();
    assert_eq!(ids.len(), 2);
    assert!(ids.contains(&whole(1)));
    assert!(ids.contains(&whole(2)));

    policies.set_rls_policy("orders", "t2");
    let ids = read_under(&policies, "orders", &rows, None, "id").unwrap();
    assert_eq!(ids.len(), 2);
    assert!(ids.contains(&whole(3)));
    assert!(ids.contains(&whole(4)));

    policies.clear_rls_policy("orders");
    let ids = read_under(&policies, "orders", &rows, None, "id").unwrap();
    assert_eq!(ids.len(), 4);
}

#[test]
fn test_rls_tenant_column_hidden_by_default() {
    let mut policies = RlsPolicies::new();
    policies.set_rls_policy("users", "tenant_X");
    let rows =
        write_under(&policies, "users", vec![("name".to_string(), TypedColumn::String(texts(&["alice", "bob"])))]);
    assert!(read_under(&policies, "users", &rows, None, "_tenant").is_none());
    assert!(read_under(&policies, "users", &rows, None, "name").is_some());
}

/// Writes rows as `write-rows` does, and gives the row group back.
fn written(json: &str) -> RowGroup {
    let rows = parse_rows(json);
    let cols = json_to_typed_columns(&rows);
    let named: Vec<(&str, TypedColumn)> = cols
        .iter()
        .map(|(n, c)| {
            let copy = match c {
                TypedColumn::String(s) => TypedColumn::String(s.clone()),
                TypedColumn::Int64(i) => TypedColumn::Int64(i.clone()),
                TypedColumn::Boolean(b) => TypedColumn::Boolean(b.clone()),
                TypedColumn::Float64(f) => TypedColumn::Float64(f.clone()),
                _ => panic!("no such column is inferred"),
            };
            (n.as_str(), copy)
        })
        .collect();
    let blob = pnd2_encode_multi_typed(&named);
    RowGroup { columns: pnd2_decode(&blob).unwrap(), extras: Vec::new() }
}

#[test]
fn test_write_rows_and_read_rows_round_trip() {
    let group = written(
        r#"[
        {"id": 1, "name": "alice", "age": 30},
        {"id": 2, "name": "bob",   "age": 25},
        {"id": 3, "name": "carol", "age": 35}
    ]"#,
    );
    let arr = read_rows_as_json(&[group], None, None, None, &no_floats()).unwrap();
    assert_eq!(arr.len(), 3);
    let alice = arr.iter().find(|r| r.get("name") == Some(&text("alice"))).unwrap();
    assert_eq!(alice.get("id").and_then(|v| v.as_i64()), Some(1));
    assert_eq!(alice.get("age").and_then(|v| v.as_i64()), Some(30));
}

#[test]
fn test_read_rows_with_where_filter() {
    let group = written(
        r#"[
        {"id": 1, "name": "alice", "age": 30},
        {"id": 2, "name": "bob",   "age": 25},
        {"id": 3, "name": "carol", "age": 35},
        {"id": 4, "name": "dave",  "age": 40}
    ]"#,
    );
    let arr = read_rows_as_json(&[group], Some("age > 30"), None, None, &no_floats()).unwrap();
    assert_eq!(arr.len(), 2);
    let names: Vec<&str> = arr.iter().filter_map(|r| r.get("name").and_then(|v| v.as_str()).map(|s| s.as_str())).collect();
    assert!(names.contains(&"carol"));
    assert!(names.contains(&"dave"));
}

#[test]
fn test_read_rows_with_column_projection() {
    let group = written(
        r#"[
        {"id": 1, "name": "alice", "age": 30, "city": "NYC"},
        {"id": 2, "name": "bob",   "age": 25, "city": "LA"}
    ]"#,
    );
    let arr = read_rows_as_json(&[group], None, Some("id,name"), None, &no_floats()).unwrap();
    assert_eq!(arr.len(), 2);
    for row in &arr {
        assert!(row.get("id").is_some());
        assert!(row.get("name").is_some());
        assert!(row.get("age").is_none());
        assert!(row.get("city").is_none());
    }
}

#[test]
fn a_limit_cuts_the_rows() {
    let group = written(r#"[{"id": 1}, {"id": 2}, {"id": 3}]"#);
    let arr = read_rows_as_json(&[group], None, None, Some(2), &no_floats()).unwrap();
    assert_eq!(arr, vec![parse(r#"{"id":1}"#), parse(r#"{"id":2}"#)]);
    let bad = read_rows_as_json(&[], Some("age"), None, None, &no_floats()).unwrap_err();
    assert!(bad.contains("expected operator"), "{}", bad);
}

#[test]
fn where_clauses_read_values() {
    let floats = FloatTable {
        entries: vec![
            ("2.5".to_string(), FloatReading::Json(2.5f64.to_bits(), "2.5".to_string())),
            ("inf".to_string(), FloatReading::NoJson),
        ],
    };
    let p = parse_where_clause("a = 1 AND b <> 'x AND y' AND c >= 2.5 AND d = inf AND e = null", &floats).unwrap();
    assert_eq!(p.len(), 5);
    assert_eq!(p[0], ("a".to_string(), "=".to_string(), whole(1)));
    assert_eq!(p[1], ("b".to_string(), "!=".to_string(), text("x AND y")));
    assert_eq!(p[2].2, JsonValue::Number(JsonNumber::Float(2.5f64.to_bits(), "2.5".to_string())));
    assert_eq!(p[3].2, text("inf"));
    assert_eq!(p[4].2, JsonValue::Null);
}

#[test]
fn columns_are_inferred_from_all_values() {
    let col = |s: &str| build_typed_column(&parse_rows(s));
    assert_eq!(col("[1, 2, null]"), TypedColumn::Int64(vec![1, 2, 0]));
    assert_eq!(col("[1, 2.5]"), TypedColumn::Float64(vec![1f64.to_bits(), 2.5f64.to_bits()]));
    assert_eq!(col("[true, null]"), TypedColumn::Boolean(vec![true, false]));
    assert_eq!(col(r#"["a", 1]"#), TypedColumn::String(texts(&["a", "1"])));
    assert_eq!(col(r#"[{"k":[1]}]"#), TypedColumn::String(texts(&[r#"{"k":[1]}"#])));
    assert_eq!(col("[null]"), TypedColumn::String(texts(&[""])));
}

#[test]
fn json_texts_round_trip() {
    let s = r#"{"a":[1,-2,18446744073709551615,2.5,true,null],"b":"q\"uote"}"#;
    assert_eq!(parse(s).to_text(), s);
    let e = JsonValue::parse(b"{").unwrap_err();
    assert!(e.starts_with("EOF while parsing"), "{}", e);
    assert!(JsonValue::parse(&[0xff]).is_err());
}

#[test]
fn a_variant_cell_is_parsed_again() {
    let blob = pnd2_encode_multi_typed(&[
        ("k", TypedColumn::Int64(vec![1, 2])),
        ("v", TypedColumn::Variant(texts(&[r#"{"x":1}"#, "nonsense"]))),
    ]);
    let cols = pnd2_decode(&blob).unwrap();
    let rows = decode_cols_to_rows(&cols, &Vec::new(), &texts(&["k"]));
    assert_eq!(rows[0], ("1".to_string(), parse(r#"{"k":1,"v":{"x":1}}"#)));
    assert_eq!(rows[1].1.get("v"), Some(&JsonValue::Null));
}

#[test]
fn float_cells_carry_their_json_text() {
    let blob = pnd2_encode_multi_typed(&[("x", TypedColumn::Float64(vec![2.5f64.to_bits(), f64::NAN.to_bits()]))]);
    let cols = pnd2_decode(&blob).unwrap();
    let extras = vec![CellExtras { float_texts: vec![Some("2.5".to_string()), None] }];
    let rows = decode_cols_to_rows(&cols, &extras, &Vec::new());
    assert_eq!(rows[0].1.to_text(), r#"{"x":2.5}"#);
    assert_eq!(rows[1].1.get("x"), Some(&JsonValue::Null));
}

#[test]
fn row_ids_come_from_the_row_or_its_content() {
    let keys = texts(&["id"]);
    assert_eq!(determine_rowid(&parse(r#"{"_rowid":"r1","id":7}"#), &keys), "r1");
    assert_eq!(determine_rowid(&parse(r#"{"id":7}"#), &keys), "7");
    let a = determine_rowid(&parse(r#"{"x":1}"#), &keys);
    let b = determine_rowid(&parse(r#"{"x":2}"#), &keys);
    assert_eq!(a.len(), 16);
    assert_ne!(a, b);
}

#[test]
fn shards_follow_the_head_and_newer_versions_win() {
    let blob = pnd2_encode_multi_typed(&[
        ("_rowid", TypedColumn::String(texts(&["a", "b"]))),
        ("n", TypedColumn::Int64(vec![1, 2])),
    ]);
    let group = StoredGroup { columns: pnd2_decode(&blob).unwrap(), extras: Vec::new(), mask: None };
    let shards = vec![
        br#"[{"_rowid":"a","n":9,"_version":"0002"},{"_rowid":"b","_deleted":true,"_version":"0003"}]"#.to_vec(),
        b"not json".to_vec(),
        br#"{"an":"object"}"#.to_vec(),
    ];
    let rows = read_collection_as_json_rows_filtered(&vec![group], &shards, &texts(&["_rowid"]));
    assert_eq!(rows.len(), 4);
    let seen = rows_seen(&rows, None);
    assert_eq!(seen.len(), 1);
    assert_eq!(seen[0].get("n"), Some(&whole(9)));
}

#[test]
fn a_mask_drops_rows_of_a_group() {
    let blob = pnd2_encode_multi_typed(&[("n", TypedColumn::Int64(vec![1, 2, 3]))]);
    let group =
        StoredGroup { columns: pnd2_decode(&blob).unwrap(), extras: Vec::new(), mask: Some(vec![true, false, true]) };
    let rows = read_collection_as_json_rows_filtered(&vec![group], &Vec::new(), &texts(&["n"]));
    assert_eq!(rows.iter().map(|r| r.0.clone()).collect::<Vec<_>>(), texts(&["1", "3"]));
}

#[test]
fn predicates_and_columns_shape_what_is_read() {
    let rows = parse_rows(r#"[{"a":1,"b":"x"},{"a":2,"b":"y","c":true},{"a":3}]"#);
    let preds = vec![("a".to_string(), ">=".to_string(), whole(2))];
    let cols = read_rows(&rows, &preds, &Vec::new(), None);
    assert_eq!(cols.len(), 3);
    assert_eq!(cols[0], ("a".to_string(), vec![Some(whole(2)), Some(whole(3))]));
    assert_eq!(cols[1], ("b".to_string(), vec![Some(text("y")), None]));
    let equal = vec![vec![false, true, false]];
    let by_text = vec![("b".to_string(), "=".to_string(), text("y"))];
    let cols = read_rows(&rows, &by_text, &equal, Some(&texts(&["a"])));
    assert_eq!(cols, vec![("a".to_string(), vec![Some(whole(2))])]);
}

#[test]
fn joins_keep_left_rows_where_asked() {
    let base = parse_rows(r#"[{"id":1},{"id":2}]"#);
    let step = |left: bool| JoinStep {
        rows: parse_rows(r#"[{"uid":1,"p":"w"},{"uid":1,"p":"g"}]"#),
        alias: Some("o".to_string()),
        on: vec![("u.id".to_string(), "o.uid".to_string())],
        left,
    };
    let inner = select_rows(&base, &Some("u".to_string()), &vec![step(false)]);
    assert_eq!(inner.len(), 2);
    assert_eq!(inner[1].get("o.p"), Some(&text("g")));
    let left = select_rows(&base, &Some("u".to_string()), &vec![step(true)]);
    assert_eq!(left.len(), 3);
    assert_eq!(left[2].get("u.id"), Some(&whole(2)));
    assert_eq!(left[2].get("o.p"), Some(&JsonValue::Null));
}

#[test]
fn results_by_rows_become_columns() {
    let rows = parse_rows(r#"[{"b":1,"a":2},{"a":3,"z":4}]"#);
    let cols = sql_result_columns(&texts(&["a", "a"]), &rows);
    let names: Vec<&str> = cols.iter().map(|c| c.0.as_str()).collect();
    assert_eq!(names, vec!["a", "b", "z"]);
    assert_eq!(cols[0].1, vec![whole(2), whole(3)]);
}

#[test]
fn only_a_select_has_functions() {
    let (s, calls) = prepare_sql("DELETE FROM t WHERE f(x)", &texts(&["f"]));
    assert_eq!(s, "DELETE FROM t WHERE f(x)");
    assert!(calls.is_empty());
    let (s, calls) = prepare_sql("  Select * FROM t WHERE f(x)", &texts(&["f"]));
    assert_eq!(s, "  Select * FROM t WHERE _udf_marker_0 = 1");
    assert_eq!(calls.len(), 1);
}

#[test]
fn tables_round_trip_and_filter() {
    let cols = vec![
        ("id".to_string(), Values::Ints(vec![3, 1, 2])),
        ("x".to_string(), Values::Floats(vec![0.5f64.to_bits(), (-2f64).to_bits(), 7f64.to_bits()])),
        ("s".to_string(), Values::Texts(texts(&["c", "a", "b"]))),
    ];
    let (blob, stats) = encode(&cols, 3).unwrap();
    assert_eq!(stats[0].bounds, Bounds::Ints(1, 3));
    assert_eq!(stats[1].bounds, Bounds::Floats((-2f64).to_bits(), 7f64.to_bits()));
    assert_eq!(stats[2].bounds, Bounds::Absent);
    let all = decode(&blob, None, &Vec::new()).unwrap();
    assert_eq!((all.n_rows, all.n_columns), (3, 3));
    assert_eq!(all.columns[0], ("id".to_string(), Cells::Ints(vec![3, 1, 2])));
    assert_eq!(all.columns[2], ("s".to_string(), Cells::Texts(texts(&["c", "a", "b"]))));
    let preds = vec![
        ColumnPredicate { column: "id".to_string(), op: ">".to_string(), target: Target { int: Some(1), float: None } },
        ColumnPredicate { column: "nope".to_string(), op: "=".to_string(), target: Target { int: None, float: None } },
    ];
    let some = decode(&blob, Some(&texts(&["s"])), &preds).unwrap();
    assert_eq!(some.columns, vec![("s".to_string(), Cells::Texts(texts(&["c", "b"])))]);
    assert_eq!((some.n_rows, some.n_columns), (2, 3));
    assert!(decode(b"junk", None, &Vec::new()).is_none());
}

#[test]
fn tables_that_cannot_be_encoded() {
    assert!(encode(&Vec::new(), 1).is_none());
    assert!(encode(&vec![("a".to_string(), Values::Ints(Vec::new()))], 0).is_none());
    assert!(encode(&vec![("a".to_string(), Values::Ints(vec![1]))], 2).is_none());
    assert!(encode(&vec![("a".to_string(), Values::Other)], 1).is_none());
    assert!(encode(&vec![("n".repeat(256), Values::Ints(vec![1]))], 1).is_none());
    assert!(encode(&vec![("n".repeat(255), Values::Ints(vec![1]))], 1).is_some());
}

#[test]
fn values_of_a_caller_make_columns() {
    let col = |v: Vec<HostValue>| python_values_to_typed_column(&v);
    assert_eq!(col(vec![HostValue::Int(1), HostValue::Nothing]), TypedColumn::Int64(vec![1, 0]));
    assert_eq!(col(Vec::new()), TypedColumn::Int64(Vec::new()));
    assert_eq!(
        col(vec![HostValue::Text("a".to_string()), HostValue::Nothing]),
        TypedColumn::String(texts(&["a", ""]))
    );
    assert_eq!(col(vec![HostValue::Bytes(vec![1])]), TypedColumn::Binary(vec![vec![1]]));
    assert_eq!(
        col(vec![HostValue::Int(1), HostValue::Text("a".to_string())]),
        TypedColumn::Variant(texts(&["1", "\"a\""]))
    );
    assert_eq!(
        col(vec![HostValue::Bool(false), HostValue::Bool(true)]),
        TypedColumn::Variant(texts(&["0", "1"]))
    );
    assert_eq!(col(vec![HostValue::Bool(false)]), TypedColumn::Variant(texts(&["0"])));
    assert_eq!(python_to_json(&HostValue::Bytes(vec![1, 2, 3])), text("__bin_b64__:AQID"));
    assert_eq!(python_to_json(&HostValue::Bool(true)), whole(1));
    assert_eq!(python_to_json(&HostValue::Float(f64::NAN.to_bits(), None)), JsonValue::Null);
}

#[test]
fn of_columns_of_one_name_a_table_has_the_last() {
    let cols = vec![
        ("a".to_string(), Values::Ints(vec![1])),
        ("b".to_string(), Values::Ints(vec![2])),
        ("_n_rows".to_string(), Values::Ints(vec![9])),
        ("a".to_string(), Values::Ints(vec![3])),
    ];
    let (blob, _) = encode(&cols, 1).unwrap();
    let table = decode(&blob, None, &Vec::new()).unwrap();
    assert_eq!(
        table.columns,
        vec![("a".to_string(), Cells::Ints(vec![3])), ("b".to_string(), Cells::Ints(vec![2]))]
    );
    assert_eq!((table.n_rows, table.n_columns), (1, 4));
}
