use rtk_sqlfluff::paths::{compact_path, sample_location};

#[test]
fn test_compact_path_absolute_models() {
    assert_eq!(
        compact_path("/Users/foo/project/models/staging/stg_orders.sql"),
        "models/staging/stg_orders.sql"
    );
}

#[test]
fn test_compact_path_absolute_macros() {
    assert_eq!(
        compact_path("/home/user/project/macros/utils.sql"),
        "macros/utils.sql"
    );
}

#[test]
fn test_compact_path_relative_models() {
    assert_eq!(
        compact_path("models/staging/stg_orders.sql"),
        "models/staging/stg_orders.sql"
    );
}

#[test]
fn test_compact_path_no_known_prefix() {
    assert_eq!(compact_path("some/deep/path/file.sql"), "file.sql");
}

#[test]
fn test_compact_path_filename_only() {
    assert_eq!(compact_path("file.sql"), "file.sql");
}

#[test]
fn compact_path_turns_backslashes_into_slashes() {
    assert_eq!(
        compact_path("C:\\work\\proj\\models\\marts\\fct.sql"),
        "models/marts/fct.sql"
    );
    assert!(!compact_path("a\\b\\c.sql").contains('\\'));
    assert_eq!(compact_path("a\\b\\c.sql"), "c.sql");
}

#[test]
fn compact_path_uses_first_root_in_list_order_at_its_last_occurrence() {
    // `models` is tried before `tests`, and its last occurrence wins.
    assert_eq!(
        compact_path("/p/tests/x/models/a/models/b.sql"),
        "models/b.sql"
    );
    assert_eq!(compact_path("/p/analyses/q.sql"), "analyses/q.sql");
    assert_eq!(compact_path("/p/snapshots/s.sql"), "snapshots/s.sql");
    assert_eq!(compact_path("/p/seeds/s.csv"), "seeds/s.csv");
    assert_eq!(compact_path("/p/tests/t.sql"), "tests/t.sql");
}

#[test]
fn compact_path_keeps_relative_roots_and_cuts_inner_roots() {
    assert_eq!(compact_path("tests/generic/t.sql"), "tests/generic/t.sql");
    // A relative path with `/models/` inside is cut there.
    assert_eq!(compact_path("models/a/models/b.sql"), "models/b.sql");
    // `modelsx/` is no dbt root.
    assert_eq!(compact_path("modelsx/a.sql"), "a.sql");
}

#[test]
fn compact_path_edge_cases() {
    assert_eq!(compact_path(""), "");
    assert_eq!(compact_path("dir/"), "");
    assert_eq!(compact_path("/"), "");
    assert_eq!(compact_path("/models/"), "models/");
}

#[test]
fn sample_location_appends_line_when_known() {
    assert_eq!(
        sample_location("/x/models/core/dim_users.sql", Some(7)),
        "models/core/dim_users.sql:7"
    );
    assert_eq!(sample_location("file.sql", None), "file.sql");
    assert_eq!(sample_location("a/b.sql", Some(0)), "b.sql:0");
    assert_eq!(
        sample_location("b.sql", Some(u64::MAX)),
        "b.sql:18446744073709551615"
    );
}
