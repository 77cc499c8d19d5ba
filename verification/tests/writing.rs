//! Writing rows and reading them back, registered functions, the rows to search.

use pond_core::blob::pnd2_decode;
use pond_core::crdt::{combine_chunks, crdt_merge_rows, merge_chunk};
use pond_core::file_rows::{cell_texts, read_file_rows};
use pond_core::index::composite_index_keys;
use pond_core::infer::CellExtra;
use pond_core::json::{JsonNumber, JsonValue};
use pond_core::merge::{merge_source, MergeActionType, ValueSpec};
use pond_core::merge_text::{
    action_texts, parse_merge_action, parse_miss_target, parse_on_string, parse_set_clause_for_merge, ActionItem,
    ActionParam,
};
use pond_core::names::stored_collections;
use pond_core::predicate::row_matches_where;
use pond_core::ranking::{candidates, vectors_of_rows};
use pond_core::report::{optimize, Compaction, OptimizeReport};
use pond_core::rows::{decode_cols_to_rows, CellExtras};
use pond_core::typed::{pnd2_encode_multi_typed, TypedColumn};
use pond_core::udf::{udf_args, UdfRegistry};
use pond_core::where_clause::{FloatReading, FloatTable};
use pond_core::write::{cmd_write_rows, json_input, row_of_columns, write_rows, write_rows_input};

fn texts(v: &[&str]) -> Vec<String> {
    v.iter().map(|s| s.to_string()).collect()
}

fn parse(s: &str) -> JsonValue {
    JsonValue::parse(s.as_bytes()).unwrap()
}

fn list(s: &str) -> Vec<JsonValue> {
    match parse(s) {
        JsonValue::Array(rows) => rows,
        _ => panic!("no list"),
    }
}

fn no_floats() -> FloatTable {
    FloatTable { entries: Vec::new() }
}

fn plain(n: usize) -> Vec<CellExtra> {
    (0..n).map(|_| CellExtra { float_text: None, vector: Vec::new() }).collect()
}

fn copy_of(c: &TypedColumn) -> TypedColumn {
    match c {
        TypedColumn::Int64(v) => TypedColumn::Int64(v.clone()),
        TypedColumn::String(v) => TypedColumn::String(v.clone()),
        _ => panic!("neither whole numbers nor texts"),
    }
}

fn people() -> Vec<(String, TypedColumn)> {
    vec![
        ("id".to_string(), TypedColumn::Int64(vec![1, 2, 3])),
        ("name".to_string(), TypedColumn::String(texts(&["Ann", "Bob", "Cy"]))),
    ]
}

#[test]
fn json_rows_are_written_and_read_back() {
    let rows = list(r#"[{"id":7,"name":"x"},{"id":-8,"name":"y"}]"#);
    let cols = cmd_write_rows(&rows).unwrap();
    let named: Vec<(&str, TypedColumn)> = cols.iter().map(|(n, c)| (n.as_str(), copy_of(c))).collect();
    let blob = pnd2_encode_multi_typed(&named);
    let decoded = pnd2_decode(&blob).unwrap();
    let extras: Vec<CellExtras> = decoded.iter().map(|_| CellExtras { float_texts: Vec::new() }).collect();
    let back = decode_cols_to_rows(&decoded, &extras, &texts(&["id"]));
    assert_eq!(back.len(), 2);
    for (i, row) in rows.iter().enumerate() {
        assert_eq!(back[i].1.get("id"), row.get("id"));
        assert_eq!(back[i].1.get("name"), row.get("name"));
    }
}

#[test]
fn nothing_to_write_is_refused() {
    assert_eq!(cmd_write_rows(&[]), Err("empty JSON array — nothing to write".to_string()));
    assert_eq!(cmd_write_rows(&list("[{},{}]")), Err("no columns inferred from input rows".to_string()));
}

#[test]
fn a_row_stands_across_columns() {
    let row = row_of_columns(&people(), &plain(2), 1);
    assert_eq!(row, parse(r#"{"id":2,"name":"Bob"}"#));
    let past = row_of_columns(&people(), &plain(2), 3);
    assert_eq!(past, parse(r#"{"id":null,"name":null}"#));
}

#[test]
fn a_condition_and_a_policy_shape_what_is_written() {
    let cols = write_rows(people(), Some(&[true, false, true]), Some("acme"));
    assert_eq!(cols.len(), 3);
    assert_eq!(cols[0], ("id".to_string(), TypedColumn::Int64(vec![1, 3])));
    assert_eq!(cols[1], ("name".to_string(), TypedColumn::String(texts(&["Ann", "Cy"]))));
    assert_eq!(cols[2], ("_tenant".to_string(), TypedColumn::String(texts(&["acme", "acme"]))));
    assert_eq!(write_rows(people(), None, None), people());
}

#[test]
fn functions_come_and_go() {
    let mut udfs = UdfRegistry::new();
    assert!(udfs.list_udfs().is_empty());
    udfs.register_udf("b");
    udfs.register_udf("a");
    udfs.register_udf("b");
    assert_eq!(udfs.list_udfs(), texts(&["a", "b"]));
    assert!(udfs.unregister_udf("b"));
    assert!(!udfs.unregister_udf("b"));
    assert_eq!(udfs.list_udfs(), texts(&["a"]));
}

#[test]
fn a_function_gets_the_cells_it_names() {
    let row = parse(r#"{"a":1,"b":"x"}"#);
    assert_eq!(udf_args(&row, &texts(&["b", "none", "a"])), list(r#"["x",null,1]"#));
    assert!(udf_args(&row, &[]).is_empty());
}

#[test]
fn collections_are_listed_once_and_in_order() {
    let names = texts(&[
        "collections/users/heads/main",
        "collections/logs/heads/main",
        "collections/users/indexes/by_id",
        "files/a.png",
    ]);
    assert_eq!(stored_collections(&names), texts(&["logs", "users"]));
}

#[test]
fn only_rows_that_a_condition_holds_of_are_searched() {
    assert_eq!(candidates(3, None), vec![0, 1, 2]);
    assert_eq!(candidates(3, Some(&vec![false, true, true])), vec![1, 2]);
    assert_eq!(candidates(3, Some(&vec![true])), vec![0]);
    assert!(candidates(0, None).is_empty());
}

#[test]
fn rows_without_a_vector_are_passed_over() {
    let rows = list(r#"[{"v":[1.5,2.5]},{"v":"no"},{"v":[0.5,0.25]},{"w":1}]"#);
    let found = vectors_of_rows(&rows, &vec![true, true, true, true], "v");
    assert_eq!(
        found,
        vec![
            (0, vec![(1.5f64).to_bits(), (2.5f64).to_bits()]),
            (2, vec![(0.5f64).to_bits(), (0.25f64).to_bits()]),
        ]
    );
    assert_eq!(vectors_of_rows(&rows, &vec![false, true, true, true], "v").len(), 1);
}

#[test]
fn targets_without_a_source_are_left_alone() {
    let plan = parse_miss_target(None, &no_floats()).unwrap();
    assert_eq!(plan.len(), 1);
    assert_eq!(plan[0].action, MergeActionType::Skip);
    let plan = parse_miss_target(Some(&ActionParam::Text("delete".to_string())), &no_floats()).unwrap();
    assert_eq!(plan[0].action, MergeActionType::Delete);
    assert!(parse_miss_target(Some(&ActionParam::Text("burn".to_string())), &no_floats()).is_err());
}

#[test]
fn set_clauses_name_their_values() {
    let floats = FloatTable { entries: vec![("2.5".to_string(), FloatReading::Json((2.5f64).to_bits(), "2.5".to_string()))] };
    let set = parse_set_clause_for_merge("t.a = s.b, c = t.d, e = 2.5", &floats).unwrap();
    assert_eq!(
        set.columns,
        vec![
            ("a".to_string(), ValueSpec::SourceCol("b".to_string())),
            ("c".to_string(), ValueSpec::TargetCol("d".to_string())),
            (
                "e".to_string(),
                ValueSpec::Static(JsonValue::Number(JsonNumber::Float((2.5f64).to_bits(), "2.5".to_string()))),
            ),
        ]
    );
}

#[test]
fn conditions_of_a_mapping_hold_together() {
    let row = parse(r#"{"city":"NYC","n":3}"#);
    let city = ("city".to_string(), parse("\"NYC\""));
    assert!(row_matches_where(&row, &vec![]));
    assert!(row_matches_where(&row, &vec![city]));
    let both = vec![("city".to_string(), parse("\"NYC\"")), ("n".to_string(), parse("4"))];
    assert!(!row_matches_where(&row, &both));
    assert!(!row_matches_where(&parse("5"), &vec![]));
}

#[test]
fn merging_in_parts_is_merging_at_once() {
    let row = |id: &str, s: &str| (id.to_string(), parse(s));
    let first = vec![row("a", r#"{"v":1,"_version":"2"}"#), row("b", r#"{"v":2,"_version":"1"}"#)];
    let second = vec![row("a", r#"{"v":3,"_version":"1"}"#), row("b", r#"{"v":4,"_version":"3"}"#)];
    let parts = combine_chunks(&[merge_chunk(&first), merge_chunk(&second)]);
    let kept: Vec<(&str, &JsonValue)> = parts.entries.iter().map(|e| (e.0.as_str(), &e.2)).collect();
    assert_eq!(
        kept,
        vec![("a", &parse(r#"{"v":1,"_version":"2"}"#)), ("b", &parse(r#"{"v":4,"_version":"3"}"#))]
    );
}

#[test]
fn the_order_of_arrival_does_not_decide() {
    let row = |id: &str, s: &str| (id.to_string(), parse(s));
    let old = r#"{"v":1,"_version":"1"}"#;
    let new = r#"{"v":2,"_version":"2"}"#;
    let there = crdt_merge_rows(&[row("a", old), row("a", new)]);
    let back = crdt_merge_rows(&[row("a", new), row("a", old)]);
    assert_eq!(there, back);
    assert_eq!(there, vec![parse(new)]);
}

#[test]
fn a_failed_collection_is_not_counted() {
    let outcomes = [Compaction::Cleared(3), Compaction::NoShards, Compaction::Failed, Compaction::Cleared(2)];
    assert_eq!(optimize(&outcomes), OptimizeReport { collections_optimized: 3, shards_compacted: 5 });
    assert_eq!(optimize(&[]), OptimizeReport { collections_optimized: 0, shards_compacted: 0 });
}

#[test]
fn rows_are_written_from_their_text() {
    let cols = write_rows_input(br#"[{"id":1,"name":"Ann"},{"id":2,"name":"Bob"}]"#).unwrap();
    assert_eq!(cols[0], ("id".to_string(), TypedColumn::Int64(vec![1, 2])));
    assert_eq!(cols[1], ("name".to_string(), TypedColumn::String(texts(&["Ann", "Bob"]))));
    assert_eq!(write_rows_input(b"[]"), Err("empty JSON array — nothing to write".to_string()));
    assert_eq!(
        write_rows_input(br#"{"id":1}"#),
        Err("input must be a JSON array of objects: invalid type: map, expected a sequence at line 1 column 0".to_string())
    );
    let e = write_rows_input(b"[1,").unwrap_err();
    assert!(e.starts_with("input must be a JSON array of objects: "));
}

#[test]
fn text_that_has_to_be_json_is_checked() {
    assert_eq!(json_input("[1, 2]").unwrap(), b"[1, 2]");
    assert!(json_input("[1,").unwrap_err().starts_with("invalid JSON: "));
}

#[test]
fn the_keys_of_an_index_come_out_of_its_blob() {
    assert_eq!(composite_index_keys(br#"{"a":"1","b":"2"}"#), Some(texts(&["a", "b"])));
    assert_eq!(composite_index_keys(br#"{"a":1}"#), None);
    assert_eq!(composite_index_keys(b"[]"), None);
    assert_eq!(composite_index_keys(b"{"), None);
}

#[test]
fn keywords_of_a_merge_are_words() {
    assert_eq!(parse_on_string("t.BRAND = s.BRAND").unwrap(), vec![("BRAND".to_string(), "BRAND".to_string())]);
    assert_eq!(
        parse_on_string("t.user_id = s.id\tAND  t.code=s.code").unwrap(),
        vec![("user_id".to_string(), "id".to_string()), ("code".to_string(), "code".to_string())]
    );
    let plan = |s: &str| parse_merge_action(Some(&ActionParam::Text(s.to_string())), true, &no_floats()).unwrap();
    let p = plan("UPDATE WHERE t.offset > s.asset SET t.set = 'x', t.elsewhere = \"active\"");
    assert_eq!(p[0].condition, Some("t.offset > s.asset".to_string()));
    assert_eq!(
        p[0].set.as_ref().unwrap().columns,
        vec![
            ("set".to_string(), ValueSpec::Static(parse("\"x\""))),
            ("elsewhere".to_string(), ValueSpec::Static(parse("\"active\""))),
        ]
    );
    let p = plan("delete where(offset = 1)");
    assert_eq!(p[0].condition, Some("(offset = 1)".to_string()));
}

#[test]
fn texts_that_may_be_floats_are_listed() {
    let param = ActionParam::List(vec![
        ActionItem::Text("UPDATE SET t.a = 1.5, *; DELETE WHERE b = 2.5".to_string()),
        ActionItem::Pair("skip".to_string(), "c = 3.5".to_string()),
    ]);
    assert_eq!(action_texts(Some(&param)), texts(&["1.5", "", ""]));
    assert_eq!(action_texts(None), texts(&[]));
    assert_eq!(cell_texts("t.csv", "a,b\n1.5, \"x\" \n\n7"), texts(&["", "1.5", "x", "7"]));
    assert!(cell_texts("t.json", "[1.5]").is_empty());
    let floats = FloatTable {
        entries: cell_texts("t.csv", "a\n1.5")
            .into_iter()
            .filter_map(|t| t.parse::<f64>().ok().map(|f| (t.clone(), FloatReading::Json(f.to_bits(), t))))
            .collect(),
    };
    let rows = read_file_rows("t.csv", "a\n1.5", &floats).unwrap();
    assert_eq!(rows, list(r#"[{"a":1.5}]"#));
}

#[test]
fn a_merge_takes_the_rows_that_its_condition_holds_of() {
    assert_eq!(merge_source(list(r#"[{"a":1},{"a":2}]"#), &[false, true]), list(r#"[{"a":2}]"#));
}
