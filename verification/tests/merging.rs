//! Merging rows, changing rows, statements, indexes, layers, files.

use pond_core::change::{delete_rows, insert_columns, replace_rows, rewrite_after_merge, update_rows};
use pond_core::crdt::crdt_merge_rows;
use pond_core::index::{build_index, index_excludes, index_keys, key_of_value, IndexPlan, IndexProbe};
use pond_core::infer::{extract_cell, filter_column, write_rows_from_json, CellExtra};
use pond_core::json::{JsonNumber, JsonValue};
use pond_core::layer::{layers, SemanticLayer};
use pond_core::media::{base64_decode, base64_encode, build_s3_url, guess_mime};
use pond_core::merge::{
    apply_set_to_row, build_merge_context, make_key, MergeActionType, MergePlanAction, SetClause, ValueSpec,
};
use pond_core::merge_text::{
    parse_action_str, parse_match_keys, parse_merge_action, parse_on_string, ActionItem, ActionParam, OnItem, OnParam,
};
use pond_core::plan::{merge_rows, Plans};
use pond_core::query::read_rows_stream;
use pond_core::sql::{plan_statement, MergeAction, SqlStatement, StatementPlan};
use pond_core::sql_text::{json_to_sql_literal, where_expr_to_sql, WhereExpr};
use pond_core::typed::TypedColumn;
use pond_core::upload::{chrono_like_id, download_condition, download_target, upload_row};
use pond_core::where_clause::FloatTable;

fn no_floats() -> FloatTable {
    FloatTable { entries: Vec::new() }
}

fn texts(v: &[&str]) -> Vec<String> {
    v.iter().map(|s| s.to_string()).collect()
}

fn whole(i: i64) -> JsonValue {
    JsonValue::Number(JsonNumber::Int(i))
}

fn text(s: &str) -> JsonValue {
    JsonValue::String(s.to_string())
}

fn parse(s: &str) -> JsonValue {
    JsonValue::parse(s.as_bytes()).unwrap()
}

fn rows(s: &str) -> Vec<JsonValue> {
    match parse(s) {
        JsonValue::Array(rows) => rows,
        _ => panic!("no list"),
    }
}

fn with_id(id: &str, s: &str) -> (String, JsonValue) {
    (id.to_string(), parse(s))
}

#[test]
fn the_latest_version_of_a_row_wins() {
    let merged = crdt_merge_rows(&[
        with_id("", r#"{"plain":1}"#),
        with_id("a", r#"{"v":1,"_version":"1"}"#),
        with_id("b", r#"{"v":2,"_version":"1"}"#),
        with_id("a", r#"{"v":3,"_version":"3"}"#),
        with_id("a", r#"{"v":4,"_version":"2"}"#),
        with_id("b", r#"{"_deleted":true,"_version":"2"}"#),
    ]);
    assert_eq!(merged, rows(r#"[{"plain":1},{"v":3,"_version":"3"}]"#));
}

#[test]
fn a_large_merge_is_merged_all_the_same() {
    let mut all: Vec<(String, JsonValue)> = Vec::new();
    for round in 0..3 {
        for i in 0..5000 {
            all.push(with_id(&format!("r{}", i), &format!(r#"{{"n":{},"_version":"{}"}}"#, i * 10 + round, round)));
        }
    }
    let merged = crdt_merge_rows(&all);
    assert_eq!(merged.len(), 5000);
    assert_eq!(merged[7].get("n"), Some(&whole(72)));
}

#[test]
fn merge_keys_are_read() {
    assert_eq!(parse_on_string("id").unwrap(), vec![("id".to_string(), "id".to_string())]);
    assert_eq!(
        parse_on_string("t.id = s.uid AND t.k = s.k").unwrap(),
        vec![("id".to_string(), "uid".to_string()), ("k".to_string(), "k".to_string())]
    );
    let on = OnParam::List(vec![OnItem::Pair("a".to_string(), "b".to_string()), OnItem::Name("c".to_string())]);
    assert_eq!(
        parse_match_keys(Some(&on), None).unwrap(),
        vec![("a".to_string(), "b".to_string()), ("c".to_string(), "c".to_string())]
    );
    assert_eq!(parse_match_keys(None, Some("k")).unwrap(), vec![("k".to_string(), "k".to_string())]);
}

#[test]
fn merge_actions_are_read() {
    assert_eq!(parse_action_str("UPDATE", true).unwrap(), MergeActionType::Update);
    assert_eq!(parse_action_str("insert", false).unwrap(), MergeActionType::Insert);
    assert_eq!(parse_action_str("insert", true).unwrap_err(), "'insert' is not valid for on_match");
    assert_eq!(
        parse_action_str("zap", true).unwrap_err(),
        "Unknown merge action: 'zap' (use update/delete/skip/insert)"
    );
    let plan = parse_merge_action(None, true, &no_floats()).unwrap();
    assert_eq!(plan[0].action, MergeActionType::Update);
    let plan = parse_merge_action(None, false, &no_floats()).unwrap();
    assert_eq!(plan[0].action, MergeActionType::Insert);
    let list = ActionParam::List(vec![ActionItem::Pair("delete".to_string(), "s.gone = 1".to_string())]);
    let plan = parse_merge_action(Some(&list), true, &no_floats()).unwrap();
    assert_eq!(plan[0].action, MergeActionType::Delete);
    assert_eq!(plan[0].condition, Some("s.gone = 1".to_string()));
}

#[test]
fn set_clauses_are_read_in_text() {
    let param = ActionParam::Text("update WHERE s.v > t.v SET n = s.n, k = 'fixed', m = 3".to_string());
    let plan = parse_merge_action(Some(&param), true, &no_floats()).unwrap();
    assert_eq!(plan.len(), 1);
    assert_eq!(plan[0].condition, Some("s.v > t.v".to_string()));
    let set = plan[0].set.as_ref().unwrap();
    assert_eq!(set.columns[0], ("n".to_string(), ValueSpec::SourceCol("n".to_string())));
    assert_eq!(set.columns[1], ("k".to_string(), ValueSpec::Static(text("fixed"))));
    assert_eq!(set.columns[2], ("m".to_string(), ValueSpec::Static(whole(3))));
}

#[test]
fn a_context_shows_both_rows() {
    let t = parse(r#"{"a":1,"_rowid":"x"}"#);
    let s = parse(r#"{"a":2}"#);
    let c = build_merge_context(Some(&t), &s);
    assert_eq!(c.get("t.a"), Some(&whole(1)));
    assert_eq!(c.get("s.a"), Some(&whole(2)));
    let none = build_merge_context(None, &s);
    assert_eq!(none.get("t.a"), None);
}

#[test]
fn a_set_clause_makes_the_new_row() {
    let t = parse(r#"{"a":1,"b":"keep","_rowid":"x"}"#);
    let s = parse(r#"{"a":2,"c":9}"#);
    let set = Some(SetClause {
        copy_all: false,
        columns: vec![
            ("a".to_string(), ValueSpec::SourceCol("c".to_string())),
            ("d".to_string(), ValueSpec::TargetCol("b".to_string())),
        ],
    });
    let r = apply_set_to_row(Some(&t), &s, &set, Some("x"));
    assert_eq!(r.get("a"), Some(&whole(9)));
    assert_eq!(r.get("b"), Some(&text("keep")));
    assert_eq!(r.get("d"), Some(&text("keep")));
    assert_eq!(r.get("_rowid"), Some(&text("x")));
    assert_eq!(make_key(&s, &texts(&["a", "c"])), "2\u{1f}9");
}

fn action(action: MergeActionType) -> Vec<MergePlanAction> {
    vec![MergePlanAction { action, condition: None, set: None }]
}

#[test]
fn a_merge_counts_what_it_writes() {
    let existing = rows(r#"[{"_rowid":"1","id":1,"v":"a"},{"_rowid":"2","id":2,"v":"b"}]"#);
    let source = rows(r#"[{"id":1,"v":"x"},{"id":3,"v":"y"}]"#);
    let (m, i, d) = (
        action(MergeActionType::Update),
        action(MergeActionType::Insert),
        action(MergeActionType::Delete),
    );
    let verdicts = Vec::new();
    let plans = Plans {
        on_match: &m,
        on_miss: &i,
        on_miss_target: &d,
        row_verdicts: &verdicts,
        target_verdicts: &verdicts,
    };
    let keys = vec![("id".to_string(), "id".to_string())];
    let out = merge_rows(&plans, &existing, &source, &keys);
    assert_eq!(out.counts.matched, 1);
    assert_eq!(out.counts.updated, 1);
    assert_eq!(out.counts.inserted, 1);
    assert_eq!(out.counts.deleted, 1);
    assert_eq!(out.to_delete, texts(&["2"]));
    assert_eq!(out.to_upsert.len(), 2);
    let after = rewrite_after_merge(&existing, &out.to_upsert, &out.to_delete, "id", "id");
    let ids: Vec<i64> = after.iter().filter_map(|r| r.get("id").and_then(|v| v.as_i64())).collect();
    assert_eq!(ids, vec![1, 3]);
    assert_eq!(after[0].get("v"), Some(&text("x")));
}

#[test]
fn rows_are_updated_and_deleted() {
    let all = rows(r#"[{"_rowid":"1","n":1},{"_rowid":"2","n":2}]"#);
    let up = update_rows(&all, &[false, true], &vec![("n".to_string(), whole(9))], &texts(&["v1", "v2"]));
    assert_eq!(up.len(), 1);
    assert_eq!(up[0].get("n"), Some(&whole(9)));
    let replaced = replace_rows(&all, &up);
    assert_eq!(replaced[0].get("n"), Some(&whole(1)));
    assert_eq!(replaced[1].get("n"), Some(&whole(9)));
    let keyed = [with_id("1", r#"{"n":1}"#), with_id("2", r#"{"n":2}"#)];
    let (gone, left) = delete_rows(&keyed, &[true, false]);
    assert_eq!(gone, texts(&["1"]));
    assert_eq!(left, rows(r#"[{"n":2}]"#));
}

#[test]
fn inserts_become_columns() {
    let cols = insert_columns(&texts(&["id", "name"]), &[vec![whole(1), text("a")], vec![whole(2)]]);
    assert_eq!(cols[0], ("id".to_string(), vec![whole(1), whole(2)]));
    assert_eq!(cols[1], ("name".to_string(), vec![text("a")]));
}

#[test]
fn statements_are_planned() {
    let cond = || WhereExpr::Compare { col: "id".to_string(), op: "=".to_string(), value: whole(1) };
    let p = plan_statement(&SqlStatement::Update {
        collection: "t".to_string(),
        sets: vec![("a".to_string(), whole(1)), ("a".to_string(), whole(2))],
        condition: cond(),
    });
    assert_eq!(
        p,
        StatementPlan::Update {
            collection: "t".to_string(),
            updates: vec![("a".to_string(), whole(2))],
            condition: "id = 1".to_string()
        }
    );
    let p = plan_statement(&SqlStatement::Delete { collection: "t".to_string(), condition: WhereExpr::True });
    assert_eq!(p, StatementPlan::Delete { collection: "t".to_string(), condition: String::new() });
    let p = plan_statement(&SqlStatement::Merge {
        target: "t".to_string(),
        match_keys: vec![("k".to_string(), "j".to_string())],
        when_matched: MergeAction::Insert,
        when_not_matched: MergeAction::Skip,
    });
    assert_eq!(
        p,
        StatementPlan::Merge {
            target: "t".to_string(),
            key_col: Some("k".to_string()),
            on_match: "update".to_string(),
            on_miss: "skip".to_string()
        }
    );
}

#[test]
fn conditions_are_written_as_sql() {
    let c = |s: &str, v: JsonValue| {
        Box::new(WhereExpr::Compare { col: s.to_string(), op: ">".to_string(), value: v })
    };
    assert_eq!(
        where_expr_to_sql(&WhereExpr::Or(
            Box::new(WhereExpr::And(c("a", whole(1)), c("b", text("x")))),
            Box::new(WhereExpr::Not(c("d", JsonValue::Null)))
        )),
        "((a > 1 AND b > 'x') OR NOT (d > NULL))"
    );
    assert_eq!(
        where_expr_to_sql(&WhereExpr::In { col: "a".to_string(), values: vec![whole(1), whole(2)], negate: true }),
        "a NOT IN (1, 2)"
    );
    assert_eq!(
        where_expr_to_sql(&WhereExpr::Like { col: "n".to_string(), pattern: "a%".to_string(), negate: false }),
        "n LIKE 'a%'"
    );
    assert_eq!(where_expr_to_sql(&WhereExpr::IsNull { col: "n".to_string(), negate: true }), "n IS NOT NULL");
    assert_eq!(
        where_expr_to_sql(&WhereExpr::Subquery {
            col: "n".to_string(),
            query: "SELECT x FROM y".to_string(),
            negate: false
        }),
        "n IN (SELECT x FROM y)"
    );
    assert_eq!(json_to_sql_literal(&parse("[1,2]")), "[1,2]");
    assert_eq!(json_to_sql_literal(&JsonValue::Bool(true)), "true");
}

#[test]
fn index_keys_join_their_parts() {
    let row = parse(r#"{"a":"x","b":[1,"y",null],"c":true}"#);
    assert_eq!(index_keys(&row, &texts(&["a"])), texts(&["x"]));
    assert_eq!(index_keys(&row, &texts(&["a", "b"])), texts(&["x\u{1f}1\u{1f}y"]));
    assert!(index_keys(&row, &texts(&["c", "none"])).is_empty());
}

#[test]
fn indexes_never_hide_a_row() {
    let row = parse(r#"{"a":"x","b":7}"#);
    let keys = index_keys(&row, &texts(&["a", "b"]));
    let probe = IndexProbe::Composite(keys);
    assert!(!index_excludes("=", &text("x"), &probe));
    assert!(!index_excludes("==", &whole(7), &probe));
    assert!(index_excludes("=", &text("z"), &probe));
    assert!(!index_excludes(">", &text("z"), &probe));
    assert!(index_excludes("=", &text("x"), &IndexProbe::Single(false)));
    assert_eq!(key_of_value(&text("x")), "x");
    assert_eq!(key_of_value(&JsonValue::Null), "null");
}

#[test]
fn index_plans_have_defaults() {
    assert_eq!(build_index("simple", None).unwrap(), IndexPlan::Simple { key_fields: texts(&["id"]) });
    let c = parse(r#"{"key_fields":["a",1,"b"],"key_field":"z"}"#);
    assert_eq!(build_index("simple", Some(&c)).unwrap(), IndexPlan::Simple { key_fields: texts(&["a", "b"]) });
    assert_eq!(
        build_index("ivf", Some(&parse(r#"{"n_clusters":-1}"#))).unwrap(),
        IndexPlan::Ivf { n_clusters: 10, metric: "euclidean".to_string() }
    );
    assert_eq!(
        build_index("hnsw", Some(&parse(r#"{"m":4,"metric":"cosine"}"#))).unwrap(),
        IndexPlan::Hnsw { m: 4, ef_construction: 200, metric: "cosine".to_string() }
    );
    assert_eq!(
        build_index("btree", None).unwrap_err(),
        "Unknown index type: 'btree'. Supported: simple, ivf, hnsw"
    );
}

#[test]
fn adapters_come_and_go() {
    let mut layer = SemanticLayer::new("sales", None, false);
    assert_eq!(layer.adapters(), texts(&["ossie"]));
    layer.add_adapter("cube");
    layer.add_adapter("cube");
    assert_eq!(layer.adapters(), texts(&["ossie", "cube"]));
    assert!(layer.remove_adapter("ossie"));
    assert!(!layer.remove_adapter("ossie"));
    assert_eq!(layer.adapters(), texts(&["cube"]));
    layer.enable_reflection();
    assert!(layer.info(&Vec::new()).reflection_enabled);
    layer.disable_reflection();
    assert!(!layer.info(&Vec::new()).reflection_enabled);
    assert_eq!(layer.meta_ref(), "semantic_layers/sales/_meta");
}

#[test]
fn old_metadata_is_migrated() {
    let mut layer = SemanticLayer { name: "s".to_string(), meta: parse(r#"{"adapter":"dbt"}"#) };
    assert_eq!(layer.adapters(), texts(&["dbt"]));
    layer.add_adapter("cube");
    assert_eq!(layer.meta.to_text(), r#"{"adapters":["dbt","cube"]}"#);
}

#[test]
fn what_a_layer_stores_it_lists_and_exports() {
    let layer = SemanticLayer::new("sales", None, false);
    let mut names = vec![layer.meta_ref()];
    for (n, _) in layer.add_datasets(&texts(&["orders"])) {
        names.push(n);
    }
    let metrics = layer.add_metrics(&vec![("revenue".to_string(), "SUM(x)".to_string())]);
    let dims = layer.add_dimensions(&vec![(
        "country".to_string(),
        ("users".to_string(), "c".to_string(), "string".to_string()),
    )]);
    let rels = layer.add_relationships(&vec![(
        "uo".to_string(),
        ("users".to_string(), "orders".to_string(), "a = b".to_string()),
    )]);
    for (n, _) in metrics.iter().chain(dims.iter()).chain(rels.iter()) {
        names.push(n.clone());
    }
    let info = layer.info(&names);
    assert_eq!(info.datasets, texts(&["orders"]));
    assert_eq!(info.metrics, texts(&["revenue"]));
    assert_eq!(info.dimensions, texts(&["country"]));
    assert_eq!(info.relationships, texts(&["uo"]));
    assert_eq!(layers(&names), texts(&["sales"]));
    let values = |v: Vec<(String, JsonValue)>| v.into_iter().map(|x| x.1).collect::<Vec<_>>();
    let defs = layer.export(None, &values(metrics), &values(dims), &values(rels)).unwrap();
    assert_eq!(defs.metrics[0].expression, "SUM(x)");
    assert_eq!(defs.metrics[0].format, "number");
    assert_eq!(defs.dimensions[0].description, "c");
    assert_eq!(defs.relationships[0].join_type, "inner");
    assert_eq!(defs.relationships[0].join_condition, "a = b");
    assert_eq!(
        layer.export(Some("dbt"), &Vec::new(), &Vec::new(), &Vec::new()).unwrap_err(),
        "Unknown adapter: 'dbt'. Supported: ossie"
    );
}

#[test]
fn bytes_survive_base64() {
    for data in [&b""[..], b"f", b"fo", b"foo", b"foob", b"\x00\xff\x10"] {
        assert_eq!(base64_decode(&base64_encode(data)), data);
    }
    assert_eq!(base64_encode(b"foob"), "Zm9vYg==");
}

#[test]
fn media_types_and_addresses() {
    assert_eq!(guess_mime("a/VIDEO.MP4"), "video/mp4");
    assert_eq!(guess_mime("noext"), "application/octet-stream");
    assert_eq!(build_s3_url("s3://b", Some("eu"), Some("http://e")), "s3://b?region=eu&endpoint=http://e");
    assert_eq!(build_s3_url("s3://b?region=us", Some("eu"), Some("e")), "s3://b?region=us&endpoint=e");
    assert_eq!(build_s3_url("s3://b", None, None), "s3://b");
}

#[test]
fn files_are_found_by_their_rows() {
    let row = upload_row("v.mp4", None, "hash", 12, Some(&parse(r#"{"duration":5,"name":"other"}"#)));
    assert_eq!(
        row.to_text(),
        r#"{"_blob_ref":"files/v.mp4","blob_hash":"hash","duration":5,"mime_type":"video/mp4","name":"other","size":12}"#
    );
    let all = vec![parse(r#"{"x":1}"#), row];
    assert_eq!(download_target(&all, &vec![true, true]), Some("files/v.mp4".to_string()));
    assert_eq!(download_target(&all, &vec![true, false]), None);
    assert_eq!(download_condition(Some("it's"), None).unwrap(), "name = 'it\\'s'");
    assert_eq!(download_condition(Some("a"), Some("id = 1")).unwrap(), "id = 1");
    assert_eq!(
        download_condition(None, None).unwrap_err(),
        "Must provide either name= or where= to download()"
    );
    assert_eq!(chrono_like_id(255), "00000000000000ff");
    assert_eq!(chrono_like_id(1u128 << 64), "10000000000000000");
}

#[test]
fn rows_come_in_batches() {
    let all = rows(r#"[{"n":1,"_rowid":"a"},{"n":2},{"n":3}]"#);
    let batches = read_rows_stream(&all, 2).unwrap();
    assert_eq!(batches.len(), 2);
    assert_eq!(batches[0], rows(r#"[{"n":1},{"n":2}]"#));
    assert_eq!(batches[1], rows(r#"[{"n":3}]"#));
    assert!(read_rows_stream(&all, 0).is_none());
}

#[test]
fn cells_and_masks_of_typed_columns() {
    let none = CellExtra { float_text: None, vector: Vec::new() };
    let col = TypedColumn::Variant(texts(&["[1]", "oops"]));
    assert_eq!(extract_cell(&col, 0, &none), parse("[1]"));
    assert_eq!(extract_cell(&col, 1, &none), JsonValue::Null);
    assert_eq!(extract_cell(&col, 2, &none), JsonValue::Null);
    assert_eq!(extract_cell(&TypedColumn::Binary(vec![vec![1, 2]]), 0, &none), text("<2 bytes>"));
    assert_eq!(
        filter_column(TypedColumn::Int64(vec![1, 2, 3]), &[true, false]),
        TypedColumn::Int64(vec![1])
    );
    assert!(write_rows_from_json(&[]).unwrap().is_empty());
    assert!(write_rows_from_json(&rows("[1]")).is_none());
    let cols = write_rows_from_json(&rows(r#"[{"n":1,"s":"a"},{"n":null,"s":"b"}]"#)).unwrap();
    assert_eq!(cols[0], ("n".to_string(), TypedColumn::Int64(vec![1, 0])));
    assert_eq!(cols[1], ("s".to_string(), TypedColumn::String(texts(&["a", "b"]))));
}
