use rtk_sqlfluff::report::{filter_sqlfluff_lint_result, lint_summary, MAX_REPORTED_FILES};
use rtk_sqlfluff::tally::{SqlfluffFile, SqlfluffViolation};
use serde_json::Value;

/// The passthrough limit used by these tests.
const LIMIT: usize = 2000;

/// Reads `sqlfluff lint --format json` output into lint results, as the
/// command front end does: the `start_line_no` field, or the older
/// `line_no`, gives the line; a missing `fixes` means none.
fn read_lint_json(output: &str) -> Result<Vec<SqlfluffFile>, String> {
    let value: Value = serde_json::from_str(output).map_err(|e| e.to_string())?;
    let files = value.as_array().ok_or_else(|| "expected an array".to_string())?;
    let mut out = Vec::new();
    for f in files {
        let filepath = f
            .get("filepath")
            .and_then(Value::as_str)
            .ok_or_else(|| "missing field `filepath`".to_string())?
            .to_string();
        let vs = f
            .get("violations")
            .and_then(Value::as_array)
            .ok_or_else(|| "missing field `violations`".to_string())?;
        let mut violations = Vec::new();
        for v in vs {
            let code = v
                .get("code")
                .and_then(Value::as_str)
                .ok_or_else(|| "missing field `code`".to_string())?
                .to_string();
            let fix_count = v.get("fixes").and_then(Value::as_array).map_or(0, |a| a.len());
            let start_line_no = v
                .get("start_line_no")
                .or_else(|| v.get("line_no"))
                .and_then(Value::as_u64);
            violations.push(SqlfluffViolation { code, fix_count, start_line_no });
        }
        out.push(SqlfluffFile { filepath, violations });
    }
    Ok(out)
}

fn filter_sqlfluff_lint_json(output: &str) -> String {
    filter_sqlfluff_lint_result(read_lint_json(output), output, LIMIT)
}

fn count_tokens(text: &str) -> usize {
    text.split_whitespace().count()
}

fn violation(code: &str, fixes: usize, line: Option<u64>) -> SqlfluffViolation {
    SqlfluffViolation { code: code.to_string(), fix_count: fixes, start_line_no: line }
}

fn file(path: &str, violations: Vec<SqlfluffViolation>) -> SqlfluffFile {
    SqlfluffFile { filepath: path.to_string(), violations }
}

// ── happy path ──────────────────────────────────────────────────────────

#[test]
fn test_filter_no_violations_empty_array() {
    let result = filter_sqlfluff_lint_json("[]");
    assert!(result.contains("✓ SQLFluff"), "expected success tick");
    assert!(result.contains("No violations found"));
}

#[test]
fn test_filter_no_violations_all_clean_files() {
    let input = r#"[{"filepath": "models/staging/stg_orders.sql", "violations": []}]"#;
    let result = filter_sqlfluff_lint_json(input);
    assert!(result.contains("✓ SQLFluff"));
    assert!(result.contains("No violations found"));
}

#[test]
fn test_filter_with_violations_counts() {
    let input = r#"[
  {
    "filepath": "models/staging/stg_customers.sql",
    "violations": [
      {"line_no": 1, "line_pos": 1, "code": "LT09", "description": "Select wildcard used.", "fixes": []},
      {"line_no": 5, "line_pos": 1, "code": "LT12", "description": "Trailing newline missing.", "fixes": [{"edit_type": "create_after"}]}
    ]
  },
  {
    "filepath": "models/intermediate/int_orders.sql",
    "violations": [
      {"line_no": 3, "line_pos": 1, "code": "LT09", "description": "Select wildcard used.", "fixes": []}
    ]
  }
]"#;
    let result = filter_sqlfluff_lint_json(input);
    assert!(result.contains("3 violations"), "should show 3 violations");
    assert!(result.contains("2 files"), "should show 2 files");
    assert!(result.contains("1 fixable"), "should count 1 fixable");
    assert!(result.contains("LT09"), "should list top rule");
    assert!(result.contains("LT12"), "should list second rule");
    assert!(result.contains("stg_customers.sql"), "should show top file");
    assert!(result.contains("int_orders.sql"), "should show second file");
    assert!(
        result.contains("LT09 (2x, first at models/staging/stg_customers.sql:1)"),
        "should show top rule with first location"
    );
    assert!(
        result.contains("LT09 (1, line 1)"),
        "should show per-file rule with line number"
    );
    assert!(
        result.contains("LT12 (1, line 5)"),
        "should show per-file rule with line number"
    );
}

#[test]
fn test_filter_fixable_hint_shown() {
    let input = r#"[
  {
    "filepath": "models/staging/stg_orders.sql",
    "violations": [
      {"line_no": 1, "line_pos": 1, "code": "LT12", "description": "Trailing newline.", "fixes": [{"edit_type": "create_after"}]}
    ]
  }
]"#;
    let result = filter_sqlfluff_lint_json(input);
    assert!(result.contains("sqlfluff fix"), "should suggest fix command");
}

#[test]
fn test_filter_no_fixable_no_hint() {
    let input = r#"[
  {
    "filepath": "models/staging/stg_orders.sql",
    "violations": [
      {"line_no": 1, "line_pos": 1, "code": "LT09", "description": "Select wildcard.", "fixes": []}
    ]
  }
]"#;
    let result = filter_sqlfluff_lint_json(input);
    assert!(
        !result.contains("sqlfluff fix"),
        "should NOT show fix hint when nothing is fixable"
    );
}

// ── real sqlfluff JSON schema (regression: start_line_no not line_no) ────

#[test]
fn test_filter_real_sqlfluff_json_schema() {
    let input = r#"[{"filepath": "models/intermediate/mariadb/int_mariadb_announces.sql", "violations": [{"start_line_no": 183, "start_line_pos": 9, "code": "RF01", "description": "Reference 'level_id' refers to table/view not found in the FROM clause or found in ancestor statement.", "name": "references.from", "warning": false, "fixes": [], "start_file_pos": 4449, "end_line_no": 183, "end_line_pos": 17, "end_file_pos": 4457}, {"start_line_no": 185, "start_line_pos": 9, "code": "RF01", "description": "Reference 'level_name' refers to table/view not found in the FROM clause or found in ancestor statement.", "name": "references.from", "warning": false, "fixes": [], "start_file_pos": 4486, "end_line_no": 185, "end_line_pos": 19, "end_file_pos": 4496}], "statistics": {"source_chars": 9356, "templated_chars": 9507}, "timings": {"templating": 0.93}}]"#;
    let result = filter_sqlfluff_lint_json(input);
    assert!(
        !result.contains("JSON parse failed"),
        "should parse real sqlfluff JSON without error"
    );
    assert!(result.contains("2 violations"), "should count 2 violations");
    assert!(result.contains("RF01"), "should show rule code");
    assert!(
        result.contains("int_mariadb_announces.sql"),
        "should show filename"
    );
    assert!(
        result.contains("int_mariadb_announces.sql:183"),
        "should surface a sample path:line location per rule"
    );
}

#[test]
fn test_filter_legacy_line_no_alias() {
    let input = r#"[{"filepath": "models/core/dim_users.sql", "violations": [{"line_no": 7, "line_pos": 2, "code": "LT09", "description": "Select wildcard.", "fixes": []}]}]"#;
    let result = filter_sqlfluff_lint_json(input);
    assert!(
        result.contains("models/core/dim_users.sql:7"),
        "legacy line_no should surface a location, got: {result}"
    );
}

// ── error handling ───────────────────────────────────────────────────────

#[test]
fn test_filter_json_parse_error() {
    let result = filter_sqlfluff_lint_json("not valid json");
    assert!(
        result.contains("JSON parse failed"),
        "should report parse failure"
    );
}

// ── token savings ─────────────────────────────────────────────────────────

#[test]
fn test_token_savings_at_least_60_percent() {
    let input = r#"[
  {
    "filepath": "models/staging/stg_customers.sql",
    "violations": [
      {"line_no": 1, "line_pos": 1, "code": "LT09", "description": "Select wildcard (*) used in select statement. Use explicit column names instead.", "fixes": [], "start_file_pos": 0, "end_file_pos": 6},
      {"line_no": 5, "line_pos": 1, "code": "LT12", "description": "Files must end with a single trailing newline.", "fixes": [{"edit_type": "create_after", "content": "\n"}], "start_file_pos": 100, "end_file_pos": 100},
      {"line_no": 10, "line_pos": 5, "code": "AM04", "description": "Query produces an unknown number of result columns. Specify a column list in the SELECT clause.", "fixes": [], "start_file_pos": 200, "end_file_pos": 220},
      {"line_no": 15, "line_pos": 1, "code": "LT09", "description": "Select wildcard (*) used in select statement. Use explicit column names instead.", "fixes": [], "start_file_pos": 300, "end_file_pos": 306},
      {"line_no": 20, "line_pos": 1, "code": "RF04", "description": "Column name is a reserved word in one or more dialects.", "fixes": [], "start_file_pos": 400, "end_file_pos": 410}
    ]
  },
  {
    "filepath": "models/intermediate/int_order_items.sql",
    "violations": [
      {"line_no": 2, "line_pos": 1, "code": "LT09", "description": "Select wildcard (*) used in select statement. Use explicit column names instead.", "fixes": [], "start_file_pos": 0, "end_file_pos": 6},
      {"line_no": 8, "line_pos": 1, "code": "AM04", "description": "Query produces an unknown number of result columns. Specify a column list in the SELECT clause.", "fixes": [], "start_file_pos": 100, "end_file_pos": 120},
      {"line_no": 12, "line_pos": 1, "code": "LT12", "description": "Files must end with a single trailing newline.", "fixes": [{"edit_type": "create_after", "content": "\n"}], "start_file_pos": 200, "end_file_pos": 200}
    ]
  },
  {
    "filepath": "models/marts/fct_orders.sql",
    "violations": [
      {"line_no": 1, "line_pos": 1, "code": "LT09", "description": "Select wildcard (*) used in select statement. Use explicit column names instead.", "fixes": [], "start_file_pos": 0, "end_file_pos": 6},
      {"line_no": 3, "line_pos": 1, "code": "RF04", "description": "Column name is a reserved word in one or more dialects.", "fixes": [], "start_file_pos": 100, "end_file_pos": 110}
    ]
  }
]"#;
    let result = filter_sqlfluff_lint_json(input);
    let input_tokens = count_tokens(input);
    let output_tokens = count_tokens(&result);
    let savings = 100.0 - (output_tokens as f64 / input_tokens as f64 * 100.0);
    assert!(
        savings >= 60.0,
        "SQLFluff filter: expected ≥60% savings, got {:.1}% (in={} out={})",
        savings,
        input_tokens,
        output_tokens
    );
}

// ── exact reports ────────────────────────────────────────────────────────

#[test]
fn report_full_text_for_two_files() {
    let files = vec![
        file(
            "models/staging/stg_customers.sql",
            vec![violation("LT09", 0, Some(1)), violation("LT12", 1, Some(5))],
        ),
        file("models/intermediate/int_orders.sql", vec![violation("LT09", 0, Some(3))]),
    ];
    let expected = "SQLFluff: 3 violations in 2 files (1 fixable)\n\
═══════════════════════════════════════\n\
Top rules:\n\
\x20 LT09 (2x, first at models/staging/stg_customers.sql:1)\n\
\x20 LT12 (1x, first at models/staging/stg_customers.sql:5)\n\
\n\
Top files:\n\
\x20 models/staging/stg_customers.sql (2 violations)\n\
\x20   LT09 (1, line 1)\n\
\x20   LT12 (1, line 5)\n\
\x20 models/intermediate/int_orders.sql (1 violations)\n\
\x20   LT09 (1, line 3)\n\
\n\
💡 Run `sqlfluff fix` to auto-fix 1 violations";
    assert_eq!(lint_summary(&files), expected);
}

#[test]
fn report_ranks_files_worst_first_and_keeps_ties_in_order() {
    let files = vec![
        file("a.sql", vec![violation("X1", 0, None)]),
        file("b.sql", vec![]),
        file("c.sql", vec![violation("X2", 0, None), violation("X2", 0, None)]),
        file("d.sql", vec![violation("X3", 0, None)]),
    ];
    let out = lint_summary(&files);
    assert!(out.starts_with("SQLFluff: 4 violations in 3 files\n"));
    let c = out.find("  c.sql (2 violations)").unwrap();
    let a = out.find("  a.sql (1 violations)").unwrap();
    let d = out.find("  d.sql (1 violations)").unwrap();
    assert!(c < a && a < d);
    assert!(!out.contains("b.sql"));
    // Counts without a line: per-file form without location.
    assert!(out.contains("    X2 (2)\n"));
    assert!(out.contains("  X2 (2x, first at c.sql)\n"));
    // No fix hint without fixable violations, and the report is trimmed.
    assert!(!out.contains("fixable"));
    assert!(out.ends_with("    X3 (1)"));
}

#[test]
fn report_location_prefers_first_violation_with_a_line() {
    let files = vec![
        file("/r/models/one.sql", vec![violation("AM04", 0, None), violation("AM04", 0, None)]),
        file("/r/models/two.sql", vec![violation("AM04", 0, Some(9)), violation("AM04", 0, Some(4))]),
    ];
    let out = lint_summary(&files);
    // Files tie at two violations: input order kept. The first located
    // violation of AM04 is in two.sql at line 9.
    assert!(out.contains("  AM04 (4x, first at models/two.sql:9)\n"));
    assert!(out.contains("    AM04 (2)\n"));
    assert!(out.contains("    AM04 (2, first at line 9)"));
}

#[test]
fn report_limits_rules_files_and_notes_the_rest() {
    let mut files = Vec::new();
    for i in 0..(MAX_REPORTED_FILES + 2) {
        let mut vs = Vec::new();
        for r in 0..5 {
            vs.push(violation(&format!("R{}{}", i, r), 0, Some(r as u64 + 1)));
        }
        files.push(file(&format!("f{}.sql", i), vs));
    }
    let out = lint_summary(&files);
    assert!(out.contains("... +2 more files"));
    let rule_lines = out
        .lines()
        .filter(|l| l.starts_with("  R") && l.contains("x, first at"))
        .count();
    assert_eq!(rule_lines, 10);
    // Three rules per file at most.
    let per_file = out.lines().filter(|l| l.starts_with("    R")).count();
    assert_eq!(per_file, 3 * MAX_REPORTED_FILES);
    assert!(out.ends_with("more files"));
}

#[test]
fn report_rule_counts_add_up_to_total() {
    let files = vec![
        file("x.sql", vec![violation("A", 2, Some(1)), violation("B", 0, None), violation("A", 0, None)]),
        file("y.sql", vec![violation("C", 1, Some(2)), violation("A", 0, Some(3))]),
    ];
    let out = lint_summary(&files);
    assert!(out.starts_with("SQLFluff: 5 violations in 2 files (2 fixable)\n"));
    assert!(out.contains("  A (3x, first at x.sql:1)\n"));
    assert!(out.contains("  B (1x, first at x.sql)\n"));
    assert!(out.contains("  C (1x, first at y.sql:2)\n"));
    assert!(out.ends_with("💡 Run `sqlfluff fix` to auto-fix 2 violations"));
}

#[test]
fn report_clean_result_is_exact() {
    assert_eq!(lint_summary(&vec![]), "✓ SQLFluff: No violations found");
    assert_eq!(
        lint_summary(&vec![file("a.sql", vec![]), file("b.sql", vec![])]),
        "✓ SQLFluff: No violations found"
    );
}

#[test]
fn parse_failure_shows_error_and_truncated_output() {
    let out = filter_sqlfluff_lint_result(Err("bad input".to_string()), "abcdefgh", 6);
    assert_eq!(out, "SQLFluff lint (JSON parse failed: bad input)\nabc...");
    let out = filter_sqlfluff_lint_result(Err("e".to_string()), "abc", 6);
    assert_eq!(out, "SQLFluff lint (JSON parse failed: e)\nabc");
    let out = filter_sqlfluff_lint_result(Err("e".to_string()), "abcdef", 2);
    assert_eq!(out, "SQLFluff lint (JSON parse failed: e)\n...");
}

#[test]
fn parsed_result_gives_the_summary() {
    let files = vec![file("m.sql", vec![violation("LT01", 0, Some(2))])];
    let out = filter_sqlfluff_lint_result(Ok(files), "ignored", 5);
    assert_eq!(
        out,
        "SQLFluff: 1 violations in 1 files\n═══════════════════════════════════════\nTop rules:\n  LT01 (1x, first at m.sql:2)\n\nTop files:\n  m.sql (1 violations)\n    LT01 (1, line 2)"
    );
}
