//! The interactive session, names and addresses, and what is shown.

use pond_core::file_rows::read_file_rows;
use pond_core::json::{JsonNumber, JsonValue};
use pond_core::names::{
    cmd_init, collection_names, describe_storage, open_storage, resolve_blob, resolve_storage_url, BlobMatch, StorePlan,
};
use pond_core::repl::{
    feed_line, parse_repl_command, record_history, statement_text, ReplCommand, ReplStep, REPL_HISTORY_LIMIT,
};
use pond_core::report::{
    branch_line, collection_line, commit_line, gc_step, history_line, output_format, schema_line, short_hash,
    table_lines, total_rows, vacuum_step, GcStep, OutputFormat,
};
use pond_core::where_clause::{is_inside_quotes, parse_single_predicate, parse_value, FloatReading, FloatTable};

fn no_floats() -> FloatTable {
    FloatTable { entries: Vec::new() }
}

fn texts(v: &[&str]) -> Vec<String> {
    v.iter().map(|s| s.to_string()).collect()
}

/// Runs a session over lines: what was executed, the history, the prompts shown,
/// and whether it was ended by a command.
fn session(input: &str) -> (Vec<String>, Vec<String>, Vec<String>, bool) {
    let mut buffer = String::new();
    let mut history: Vec<String> = Vec::new();
    let mut executed = Vec::new();
    let mut prompts = Vec::new();
    for line in input.lines() {
        prompts.push(if buffer.is_empty() { "pond> ".to_string() } else { "  ... ".to_string() });
        match feed_line(&mut buffer, line) {
            ReplStep::Wait => {}
            ReplStep::Execute(s) => {
                record_history(&mut history, &s);
                executed.push(s);
            }
            ReplStep::ExecuteAndQuit(s) => {
                record_history(&mut history, &s);
                executed.push(s);
                return (executed, history, prompts, true);
            }
            ReplStep::Quit => return (executed, history, prompts, true),
        }
    }
    (executed, history, prompts, false)
}

#[test]
fn test_shell_parser_sql_select() {
    let (done, _, _, ended) = session("SELECT * FROM items WHERE name = 'widget';\n\\q\n");
    assert!(ended);
    assert_eq!(done[0], "SELECT * FROM items WHERE name = 'widget';");
    assert_eq!(
        parse_repl_command(&done[0]),
        ReplCommand::Sql("SELECT * FROM items WHERE name = 'widget';".to_string())
    );
    assert_eq!(statement_text(&done[0]), "SELECT * FROM items WHERE name = 'widget'");
}

#[test]
fn test_shell_parser_meta_list_collections() {
    let (done, _, _, _) = session("\\l\n\\q\n");
    assert_eq!(parse_repl_command(&done[0]), ReplCommand::ListCollections);
    assert_eq!(parse_repl_command("\\list"), ReplCommand::ListCollections);
}

#[test]
fn test_shell_parser_meta_describe() {
    let (done, _, _, _) = session("\\d items\n\\q\n");
    assert_eq!(parse_repl_command(&done[0]), ReplCommand::Describe("items".to_string()));
    assert_eq!(parse_repl_command("\\describe  items "), ReplCommand::Describe("items".to_string()));
    assert!(schema_line("id", 1).contains("INT64"));
}

#[test]
fn test_shell_parser_meta_branches() {
    let (done, _, _, _) = session("\\b items\n\\q\n");
    assert_eq!(parse_repl_command(&done[0]), ReplCommand::Branches("items".to_string()));
}

#[test]
fn test_shell_parser_meta_help() {
    let (done, _, _, _) = session("\\h\n\\q\n");
    assert_eq!(parse_repl_command(&done[0]), ReplCommand::Help);
    assert_eq!(parse_repl_command("\\?"), ReplCommand::Help);
}

#[test]
fn test_shell_parser_quit_variants() {
    for quit_cmd in &["\\q", "\\quit", "exit", "quit"] {
        let (_, _, prompts, ended) = session(&format!("{}\n", quit_cmd));
        assert!(ended, "quit variant {:?} should exit cleanly", quit_cmd);
        assert_eq!(prompts.len(), 1, "expected exactly one prompt for {:?}", quit_cmd);
        assert_eq!(parse_repl_command(quit_cmd), ReplCommand::Quit);
    }
}

#[test]
fn test_shell_multiline_input_accumulation() {
    let (done, _, prompts, _) = session("SELECT *\nFROM items\nWHERE id = 1;\n\\q\n");
    assert_eq!(done[0], "SELECT * FROM items WHERE id = 1;");
    assert_eq!(prompts.iter().filter(|p| p.as_str() == "  ... ").count(), 2);
}

#[test]
fn test_shell_multiline_then_immediate_meta() {
    let (done, _, _, _) = session("SELECT *\n\\l\nFROM items;\n\\q\n");
    assert_eq!(done[0], "\\l");
    assert_eq!(done[1], "SELECT * FROM items;");
}

#[test]
fn test_shell_history_command() {
    let (_, history, _, _) = session("SELECT * FROM items;\n\\history\n\\q\n");
    assert!(history.contains(&"SELECT * FROM items;".to_string()));
    assert!(history.contains(&"\\history".to_string()));
    assert_eq!(parse_repl_command("\\history"), ReplCommand::History);
}

#[test]
fn test_shell_history_capped_at_100() {
    let mut input = String::new();
    for i in 0..105 {
        input.push_str(&format!("SELECT * FROM items WHERE id = {};\n", i));
    }
    input.push_str("\\history\n");
    let (_, history, _, _) = session(&input);
    assert_eq!(history.len(), REPL_HISTORY_LIMIT);
    let out = history.join("\n");
    assert!(!out.contains("id = 0;"));
    assert!(!out.contains("id = 5;"));
    assert!(out.contains("id = 6;"));
    assert!(out.contains("id = 104;"));
    assert!(out.contains("\\history"));
}

#[test]
fn test_shell_empty_lines_skipped() {
    let (_, history, _, _) = session("\n   \nSELECT * FROM items;\n\n\\history\n");
    assert_eq!(history, texts(&["SELECT * FROM items;", "\\history"]));
    let select_lines: Vec<&String> = history.iter().filter(|l| l.contains("SELECT * FROM items")).collect();
    assert_eq!(select_lines.len(), 1);
}

#[test]
fn test_shell_exit_on_eof() {
    let (done, _, _, ended) = session("SELECT * FROM items;\n");
    assert!(!ended);
    assert_eq!(done.len(), 1);
}

#[test]
fn test_shell_shell_escape() {
    let (done, _, _, _) = session("\\! echo hello_from_shell\n\\q\n");
    assert_eq!(parse_repl_command(&done[0]), ReplCommand::Shell("echo hello_from_shell".to_string()));
}

#[test]
fn unknown_meta_commands_are_tried_as_sql() {
    assert_eq!(parse_repl_command("  \\zap x "), ReplCommand::Sql("\\zap x".to_string()));
    assert_eq!(parse_repl_command(" \t"), ReplCommand::Empty);
    assert_eq!(statement_text(" ;; "), "");
}

#[test]
fn test_ls() {
    let names = texts(&["collections/users/_branches/main", "orders", "collections/users/_branches/dev", "_x/y"]);
    assert_eq!(collection_names(&names), texts(&["orders", "users"]));
    let out: Vec<String> =
        collection_names(&names).iter().map(|n| collection_line("0123456789abcdef", n)).collect();
    assert_eq!(out, texts(&["0123456789ab\torders", "0123456789ab\tusers"]));
}

#[test]
fn test_cat_by_prefix() {
    let hash = "ab".repeat(32);
    let prefix = short_hash(&hash);
    assert_eq!(resolve_blob(&prefix, &[hash.clone()], "no such blob"), BlobMatch::Found(hash));
}

#[test]
fn test_cat_unique_short_hash_prefix() {
    let h1 = "12345678".repeat(8);
    assert_eq!(resolve_blob(&h1[..8], &[h1.clone()], "no such blob"), BlobMatch::Found(h1));
}

#[test]
fn test_cat_ambiguous_short_hash_prefix_errors() {
    let h1 = format!("ef5830{}", "1".repeat(58));
    let h2 = format!("ef5830{}", "2".repeat(58));
    match resolve_blob(&h1[..6], &[h1.clone(), h2.clone()], "no such blob") {
        BlobMatch::Refused(err) => {
            assert!(err.contains("ambiguous prefix"), "{err}");
            assert!(err.contains("2 blobs match"), "{err}");
            assert!(err.contains(&h1), "{err}");
            assert!(err.contains(&h2), "{err}");
        }
        other => panic!("{:?}", other),
    }
}

#[test]
fn test_cat_short_hash_prefix_no_match_errors() {
    let probe = "abcde0";
    assert_eq!(
        resolve_blob(probe, &[], "no such blob"),
        BlobMatch::Refused(format!("Error: no blob with prefix '{}'", probe))
    );
}

#[test]
fn test_cat_prefix_below_minimum_not_resolved() {
    let h = "beef".repeat(16);
    let short = &h[..4];
    assert_eq!(
        resolve_blob(short, &[h.clone()], "no such blob"),
        BlobMatch::Refused(format!("Error: no blob with prefix '{}'", short))
    );
}

#[test]
fn test_cat_single_char_argument_errors_cleanly() {
    assert_eq!(
        resolve_blob("x", &[], "no such blob"),
        BlobMatch::Refused("Error: no blob with prefix 'x'".to_string())
    );
}

#[test]
fn a_whole_hash_that_cannot_be_read_gives_the_error() {
    let h = "c".repeat(64);
    assert_eq!(
        resolve_blob(&h, &[], "gone"),
        BlobMatch::Refused(format!("Error: '{}': gone", h))
    );
}

#[test]
fn stores_are_found_by_address() {
    assert_eq!(resolve_storage_url(Some("s3://b"), Some("/repo")), "s3://b");
    assert_eq!(resolve_storage_url(None, Some("/repo")), "/repo");
    assert_eq!(resolve_storage_url(None, None), ".");
    assert_eq!(open_storage("file:///data"), StorePlan::Local("/data".to_string()));
    assert_eq!(open_storage("/data"), StorePlan::Local("/data".to_string()));
    assert_eq!(cmd_init(".", Some("s3://b/p")), StorePlan::S3("s3://b/p".to_string()));
    assert_eq!(cmd_init("here", None), StorePlan::Local("here".to_string()));
}

#[test]
fn s3_stores_are_described() {
    let d = |u: &str| describe_storage(u);
    assert_eq!(d("s3://b/p").unwrap(), "AWS S3 (b: s3://b//p)");
    assert!(d("s3://b/p?endpoint=https://x.r2.cloudflarestorage.com").unwrap().starts_with("Cloudflare R2 ("));
    assert!(d("s3://b?endpoint=http://localhost:9000").unwrap().starts_with("MinIO/Local ("));
    assert!(d("s3://b?endpoint=http://other").unwrap().starts_with("S3-compatible ("));
    assert!(d("/data").is_none());
}

#[test]
fn lines_of_lists() {
    let h = "0123456789abcdef";
    assert_eq!(branch_line("main", "main", h), "* main\t0123456789ab");
    assert_eq!(branch_line("dev", "main", "short"), "  dev\tshort");
    assert_eq!(commit_line(h, "seed", true), "0123456789ab\tseed (merge)");
    assert_eq!(commit_line(h, "seed", false), "0123456789ab\tseed");
    assert_eq!(history_line(7, "\\l"), "   7  \\l");
    assert_eq!(history_line(12345, "x"), "12345  x");
    assert_eq!(schema_line("name", 3), format!("  {:<24} {:<10}", "name", "STRING"));
    assert_eq!(schema_line("v", 10), format!("  {:<24} {:<10}", "v", "OTHER"));
    assert_eq!(total_rows(&[3, 4, 5]), 12);
}

#[test]
fn rows_are_laid_out_as_a_table() {
    let rows = match JsonValue::parse(br#"[{"id":1,"name":"alice"},{"id":22,"name":null},{"id":3}]"#).unwrap() {
        JsonValue::Array(rows) => rows,
        _ => panic!("no list"),
    };
    assert_eq!(
        table_lines(&rows),
        texts(&["id | name ", "----------", "1  | alice", "22 | null ", "3  | null "])
    );
    assert_eq!(table_lines(&[]), texts(&["(no rows)"]));
    assert_eq!(output_format("JSON"), OutputFormat::Json);
    assert_eq!(output_format(""), OutputFormat::Json);
    assert_eq!(output_format("Table"), OutputFormat::Table);
    assert_eq!(
        output_format("XML"),
        OutputFormat::Unknown("Error: unknown format 'xml' (use 'json' or 'table')".to_string())
    );
}

#[test]
fn collecting_garbage_depends_on_the_dead() {
    assert_eq!(gc_step(0, true), GcStep::Nothing);
    assert_eq!(gc_step(3, true), GcStep::DryRun);
    assert_eq!(gc_step(3, false), GcStep::Vacuum);
    assert_eq!(vacuum_step(0, true), GcStep::DryRun);
    assert_eq!(vacuum_step(0, false), GcStep::Nothing);
    assert_eq!(vacuum_step(1, false), GcStep::Vacuum);
}

#[test]
fn quotes_hide_what_is_inside_them() {
    assert!(is_inside_quotes("a = 'b AND c'", 7));
    assert!(!is_inside_quotes("a = 'b' AND c", 9));
    let p = parse_single_predicate("name != \"x\"", &no_floats()).unwrap();
    assert_eq!(p, ("name".to_string(), "!=".to_string(), JsonValue::String("x".to_string())));
    assert!(parse_single_predicate("nothing here", &no_floats()).unwrap_err().contains("expected operator"));
    assert!(parse_single_predicate(" = 3", &no_floats()).unwrap_err().contains("missing column name"));
    assert_eq!(parse_value(" ", &no_floats()).unwrap_err(), "empty value");
    assert_eq!(parse_value("-12", &no_floats()).unwrap(), JsonValue::Number(JsonNumber::Int(-12)));
    assert_eq!(parse_value("TRUE", &no_floats()).unwrap(), JsonValue::Bool(true));
    assert_eq!(parse_value("bare", &no_floats()).unwrap(), JsonValue::String("bare".to_string()));
}

#[test]
fn files_are_read_by_their_ending() {
    let floats = FloatTable {
        entries: vec![("1.5".to_string(), FloatReading::Json(1.5f64.to_bits(), "1.5".to_string()))],
    };
    let csv = "id,\"name\", x\r\n1, alice ,1.5\n\n2,\"bob\"\n";
    let rows = read_file_rows("d.csv", csv, &floats).unwrap();
    assert_eq!(rows.len(), 2);
    assert_eq!(rows[0].to_text(), r#"{"id":1,"name":"alice","x":1.5}"#);
    assert_eq!(rows[1].get("name"), Some(&JsonValue::String("bob".to_string())));
    assert_eq!(rows[1].get("x"), Some(&JsonValue::Null));
    let tsv = read_file_rows("d.tsv", "a\tb\ntrue\tx,y", &floats).unwrap();
    assert_eq!(tsv[0].get("a"), Some(&JsonValue::Bool(true)));
    assert_eq!(tsv[0].get("b"), Some(&JsonValue::String("x,y".to_string())));
    assert_eq!(read_file_rows("d.json", "[1,2]", &floats).unwrap().len(), 2);
    assert_eq!(read_file_rows("d.json", "{\"a\":1}", &floats).unwrap().len(), 1);
    assert_eq!(read_file_rows("d.ndjson", "{\"a\":1}\n\n{\"a\":2}\n", &floats).unwrap().len(), 2);
}

#[test]
fn files_that_cannot_be_read() {
    let f = no_floats();
    assert_eq!(read_file_rows("d.csv", "", &f).unwrap_err(), "CSV file is empty");
    assert_eq!(read_file_rows("d.json", "3", &f).unwrap_err(), "JSON file must contain an array or object");
    assert!(read_file_rows("d.json", "{", &f).unwrap_err().starts_with("Failed to parse JSON: EOF"));
    assert!(read_file_rows("d.ndjson", "{}\n{", &f).unwrap_err().starts_with("Failed to parse NDJSON line: EOF"));
    assert_eq!(
        read_file_rows("d.parquet", "", &f).unwrap_err(),
        "Parquet file reading not yet supported. Use CSV or JSON."
    );
    assert_eq!(read_file_rows("d.xls", "", &f).unwrap_err(), "Unsupported file format: 'd.xls'");
}
