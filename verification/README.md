# rtk_sqlfluff

Condensed reports of `sqlfluff lint` output, verified with Verus.

- `src/text.rs` — characters of strings, decimal rendering, Unicode
  white-space trimming, truncation with `...`.
- `src/paths.rs` — compact dbt/SQL display paths and `path:line` locations.
- `src/ranking.rs` — stable ranking by descending count, with its
  uniqueness, permutation and sum laws.
- `src/tally.rs` — lint results (`SqlfluffFile`, `SqlfluffViolation`) and
  grouping of violations by rule.
- `src/report.rs` — the report text, exactly specified by `lint_report`.
- `src/invocation.rs` — which arguments sqlfluff gets, and whether its
  output is condensed or passed through.
- `src/laws.rs` — properties that hold of every report and every call.
- `app/lib.rs` — the unverified front end: runs sqlfluff and reads its JSON
  with serde before handing plain values to the library.
