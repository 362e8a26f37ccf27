//! Properties of the report that hold for every lint result, and of the way
//! a sqlfluff call is passed on.

use vstd::prelude::*;

use crate::invocation::{
    applies_json_filter, asks_json_at, is_format_flag, is_lint_call, sets_format, sqlfluff_args,
    uses_json_filter,
};
use crate::paths::{compacted, cut_at_root, dbt_roots, file_name, with_forward_slashes, DBT_ROOT_COUNT, rfind};
use crate::ranking::{goes_before, is_ranking, lemma_ranking_exists, lemma_sum_update, ranking, sum_of};
use crate::report::{
    at_most, file_block, file_blocks, file_rule_line, file_rule_lines, fix_hint, fixable_violations,
    headline, hint_line, more_files_note, untrimmed_report, MAX_REPORTED_FILES,
    lint_report, total_violations as total_of, flagged, occurrences, ranked_files, ranked_tallies, total_violations, violation_counts,
};
use crate::tally::{
    codes, code_count, file_occurrences, first_of, first_with_line, lemma_tallies_bump, lemma_tallies_fresh,
    rule_of, rule_tallies, tally_counts, FileModel, Occurrence, RuleModel,
};
use crate::text::{is_white_space, trim, trim_end, trim_start, truncated};

verus! {

// ------------------------------------------------------------ ranked files

proof fn lemma_flagged_members(fs: Seq<FileModel>)
    ensures
        forall|f: FileModel| #[trigger] flagged(fs).contains(f) <==> fs.contains(f) && f.violations.len() > 0,
    decreases fs.len(),
{
    if fs.len() > 0 {
        let d = fs.drop_last();
        lemma_flagged_members(d);
        assert forall|f: FileModel| #[trigger] flagged(fs).contains(f) <==> fs.contains(f)
            && f.violations.len() > 0 by {
            if fs.contains(f) && f.violations.len() > 0 {
                let i = choose|i: int| 0 <= i < fs.len() && fs[i] == f;
                if i < fs.len() - 1 {
                    assert(d[i] == f);
                    assert(flagged(d).contains(f));
                    let j = choose|j: int| 0 <= j < flagged(d).len() && flagged(d)[j] == f;
                    if fs.last().violations.len() > 0 {
                        assert(flagged(fs)[j] == f);
                    }
                } else {
                    assert(flagged(fs).last() == f);
                }
            }
            if flagged(fs).contains(f) {
                let j = choose|j: int| 0 <= j < flagged(fs).len() && flagged(fs)[j] == f;
                if fs.last().violations.len() > 0 && j == flagged(fs).len() - 1 {
                    assert(fs[fs.len() - 1] == f);
                } else {
                    assert(flagged(d)[j] == f);
                    assert(flagged(d).contains(f));
                    let i = choose|i: int| 0 <= i < d.len() && d[i] == f;
                    assert(fs[i] == f);
                }
            }
        }
    }
}

/// The files of the report are ranked worst first: exactly the files that
/// have violations, ordered by their number of violations, largest first,
/// and files with as many violations keep their input order.
pub proof fn law_ranked_files_worst_first(fs: Seq<FileModel>)
    ensures
        forall|f: FileModel| #[trigger] ranked_files(fs).contains(f) <==> fs.contains(f) && f.violations.len() > 0,
        ranked_files(fs).len() == flagged(fs).len(),
        forall|a: int, b: int|
            0 <= a < b < ranked_files(fs).len() ==> (#[trigger] ranked_files(fs)[a]).violations.len()
                >= (#[trigger] ranked_files(fs)[b]).violations.len(),
{
    let g = flagged(fs);
    let counts = violation_counts(g);
    let order = ranking(counts);
    lemma_ranking_exists(counts);
    lemma_flagged_members(fs);
    let r = ranked_files(fs);
    assert forall|a: int, b: int| 0 <= a < b < r.len() implies (#[trigger] r[a]).violations.len()
        >= (#[trigger] r[b]).violations.len() by {
        assert(goes_before(counts, order[a], order[b]));
    }
    assert forall|f: FileModel| #[trigger] r.contains(f) <==> g.contains(f) by {
        if r.contains(f) {
            let a = choose|a: int| 0 <= a < r.len() && r[a] == f;
            assert(g[order[a]] == f);
        }
        if g.contains(f) {
            let i = choose|i: int| 0 <= i < g.len() && g[i] == f;
            assert(order.contains(i));
            let a = choose|a: int| 0 <= a < order.len() && order[a] == i;
            assert(r[a] == f);
        }
    }
}

// ------------------------------------------------------------- rule counts

proof fn lemma_tally_sum(occ: Seq<Occurrence>)
    ensures
        sum_of(tally_counts(rule_tallies(occ))) == occ.len(),
    decreases occ.len(),
{
    if occ.len() > 0 {
        let d = occ.drop_last();
        let o = occ.last();
        lemma_tally_sum(d);
        assert(d.push(o) =~= occ);
        let before = rule_tallies(d);
        if codes(d).contains(o.violation.code) {
            let k = choose|k: int| 0 <= k < codes(d).len() && codes(d)[k] == o.violation.code;
            lemma_tallies_bump(d, o, k);
            let after = before.update(k, crate::tally::bumped(before[k], o));
            assert(tally_counts(after) =~= tally_counts(before).update(k, before[k].count + 1));
            lemma_sum_update(tally_counts(before), k, before[k].count + 1);
        } else {
            lemma_tallies_fresh(d, o);
            assert(tally_counts(before.push(crate::tally::fresh(o))).drop_last() =~= tally_counts(before));
        }
    }
}

/// The rule counts of the report add up to the total number of violations:
/// every violation is counted under exactly one rule.
pub proof fn law_rule_counts_add_up(fs: Seq<FileModel>)
    ensures
        sum_of(tally_counts(rule_tallies(occurrences(ranked_files(fs))))) == total_violations(fs),
{
    let r = ranked_files(fs);
    lemma_tally_sum(occurrences(r));
    crate::report::lemma_occurrences_len(r);
    crate::report::lemma_ranked_total(fs);
}

/// The rules of a tally are listed most frequent first, each rule once.
pub proof fn law_rules_most_frequent_first(occ: Seq<Occurrence>)
    ensures
        ranked_tallies(rule_tallies(occ)).len() == rule_tallies(occ).len(),
        forall|a: int, b: int|
            0 <= a < b < ranked_tallies(rule_tallies(occ)).len() ==> (#[trigger] ranked_tallies(
                rule_tallies(occ),
            )[a]).count >= (#[trigger] ranked_tallies(rule_tallies(occ))[b]).count,
        forall|a: int, b: int|
            0 <= a < b < rule_tallies(occ).len() ==> (#[trigger] rule_tallies(occ)[a]).code
                != (#[trigger] rule_tallies(occ)[b]).code,
{
    let t = rule_tallies(occ);
    let counts = tally_counts(t);
    let order = ranking(counts);
    lemma_ranking_exists(counts);
    let r = ranked_tallies(t);
    assert forall|a: int, b: int| 0 <= a < b < r.len() implies (#[trigger] r[a]).count
        >= (#[trigger] r[b]).count by {
        assert(goes_before(counts, order[a], order[b]));
    }
    crate::tally::lemma_codes_facts(occ, Seq::empty());
}

/// A rule's sample location carries a line number exactly when some
/// violation of that rule has one, and its count is the number of its
/// violations.
pub proof fn law_sample_location_has_line(occ: Seq<Occurrence>, code: Seq<char>)
    requires
        codes(occ).contains(code),
    ensures
        rule_of(occ, code).line is Some <==> exists|i: int|
            0 <= i < occ.len() && (#[trigger] occ[i]).violation.code == code && occ[i].violation.line is Some,
        rule_of(occ, code).count == code_count(occ, code),
        rule_of(occ, code).count > 0,
    decreases occ.len(),
{
    crate::tally::lemma_codes_facts(occ, code);
    lemma_first_with_line_exists(occ, code);
}

proof fn lemma_first_with_line_exists(occ: Seq<Occurrence>, code: Seq<char>)
    ensures
        first_with_line(occ, code) is Some <==> exists|i: int|
            0 <= i < occ.len() && (#[trigger] occ[i]).violation.code == code && occ[i].violation.line is Some,
        first_with_line(occ, code) matches Some(o) ==> o.violation.line is Some,
    decreases occ.len(),
{
    if occ.len() > 0 {
        let d = occ.drop_last();
        lemma_first_with_line_exists(d, code);
        if exists|i: int| 0 <= i < d.len() && (#[trigger] d[i]).violation.code == code && d[i].violation.line is Some {
            let i = choose|i: int| 0 <= i < d.len() && (#[trigger] d[i]).violation.code == code && d[i].violation.line is Some;
            assert(occ[i] == d[i]);
        }
        if exists|i: int| 0 <= i < occ.len() && (#[trigger] occ[i]).violation.code == code && occ[i].violation.line is Some {
            let i = choose|i: int| 0 <= i < occ.len() && (#[trigger] occ[i]).violation.code == code && occ[i].violation.line is Some;
            if i < d.len() {
                assert(d[i] == occ[i]);
            }
        }
    }
}

// ------------------------------------------------------------------- paths

/// A compact path never holds a backslash: paths are shown with forward
/// slashes whatever the platform wrote.
pub proof fn law_compact_path_forward_slashes(path: Seq<char>)
    ensures
        !compacted(path).contains('\\'),
{
    let p = with_forward_slashes(path);
    assert(!p.contains('\\'));
    lemma_cut_has_no_backslash(p, 0);
    crate::paths::lemma_rfind_occurs(p, seq!['/']);
    if let Some(pos) = rfind(p, seq!['/']) {
        let tail = p.skip(pos + 1);
        assert(!tail.contains('\\')) by {
            if tail.contains('\\') {
                let j = choose|j: int| 0 <= j < tail.len() && tail[j] == '\\';
                assert(p[j + pos + 1] == '\\');
            }
        }
    }
}

proof fn lemma_cut_has_no_backslash(p: Seq<char>, i: int)
    requires
        !p.contains('\\'),
    ensures
        cut_at_root(p, i) matches Some(c) ==> !c.contains('\\'),
    decreases DBT_ROOT_COUNT - i,
{
    if 0 <= i < DBT_ROOT_COUNT {
        lemma_cut_has_no_backslash(p, i + 1);
        if let Some(pos) = rfind(p, crate::paths::root_needle(i)) {
            crate::paths::lemma_rfind_occurs(p, crate::paths::root_needle(i));
            let root = dbt_roots()[i];
            let tail = p.skip(pos + crate::paths::root_needle(i).len());
            let c = root + seq!['/'] + tail;
            reveal_strlit("models");
            reveal_strlit("tests");
            reveal_strlit("macros");
            reveal_strlit("seeds");
            reveal_strlit("snapshots");
            reveal_strlit("analyses");
            if c.contains('\\') {
                let j = choose|j: int| 0 <= j < c.len() && c[j] == '\\';
                if j > root.len() {
                    assert(tail[j - root.len() - 1] == '\\');
                    assert(p[j - root.len() - 1 + pos + crate::paths::root_needle(i).len()] == '\\');
                }
            }
        }
    }
}

// ---------------------------------------------------------------- trimming

proof fn lemma_trim_start_edge(s: Seq<char>)
    ensures
        trim_start(s).len() > 0 ==> !is_white_space(trim_start(s)[0]),
    decreases s.len(),
{
    if s.len() > 0 && is_white_space(s[0]) {
        lemma_trim_start_edge(s.drop_first());
    }
}

proof fn lemma_trim_end_edge(s: Seq<char>)
    ensures
        trim_end(s).len() > 0 ==> !is_white_space(trim_end(s).last()),
        trim_end(s).len() > 0 ==> trim_end(s)[0] == s[0],
        trim_end(s).len() <= s.len(),
    decreases s.len(),
{
    if s.len() > 0 && is_white_space(s.last()) {
        lemma_trim_end_edge(s.drop_last());
    }
}

/// Trimmed text neither starts nor ends with white space.
pub proof fn law_trimmed_has_no_edge_white_space(s: Seq<char>)
    ensures
        trim(s).len() > 0 ==> !is_white_space(trim(s)[0]) && !is_white_space(trim(s).last()),
{
    lemma_trim_start_edge(s);
    lemma_trim_end_edge(trim_start(s));
}

/// A report with violations neither starts nor ends with white space; a run
/// without violations gets the success line.
pub proof fn law_report_is_trimmed(fs: Seq<FileModel>)
    ensures
        total_of(fs) == 0 ==> lint_report(fs) == crate::report::clean_report(),
        total_of(fs) > 0 && lint_report(fs).len() > 0 ==> !is_white_space(lint_report(fs)[0])
            && !is_white_space(lint_report(fs).last()),
{
    if total_of(fs) > 0 {
        law_trimmed_has_no_edge_white_space(crate::report::untrimmed_report(fs));
    }
}

// ------------------------------------------------------- report outline

proof fn lemma_suffix_add(t: Seq<char>, a: Seq<char>, b: Seq<char>)
    requires
        t.is_suffix_of(b),
    ensures
        t.is_suffix_of(a + b),
{
    assert((a + b).subrange((a + b).len() - t.len(), (a + b).len() as int) =~= b.subrange(
        b.len() - t.len(),
        b.len() as int,
    ));
}

proof fn lemma_prefix_add(t: Seq<char>, a: Seq<char>, b: Seq<char>)
    requires
        t.is_prefix_of(a),
    ensures
        t.is_prefix_of(a + b),
{
    assert((a + b).subrange(0, t.len() as int) =~= a.subrange(0, t.len() as int));
}

proof fn lemma_suffix_self(t: Seq<char>)
    ensures
        t.is_suffix_of(t),
{
    assert(t.subrange(0, t.len() as int) =~= t);
}

proof fn lemma_suffix_trans(t: Seq<char>, s: Seq<char>, r: Seq<char>)
    requires
        t.is_suffix_of(s),
        s.is_suffix_of(r),
    ensures
        t.is_suffix_of(r),
{
    assert(r.subrange(r.len() - t.len(), r.len() as int) =~= s.subrange(
        s.len() - t.len(),
        s.len() as int,
    ));
}

/// The text `)` followed by a line break.
spec fn close_paren() -> Seq<char> {
    ")\n"@
}

proof fn lemma_file_rule_lines_close(rs: Seq<RuleModel>)
    requires
        rs.len() > 0,
    ensures
        close_paren().is_suffix_of(file_rule_lines(rs)),
{
    let r = rs.last();
    lemma_suffix_self(close_paren());
    let line = file_rule_line(r);
    assert(close_paren().is_suffix_of(line)) by {
        match r.line {
            Some(l) => {
                if r.count == 1 {
                    lemma_suffix_add(close_paren(), "    "@ + r.code + " (1, line "@ + crate::text::decimal(l as nat), ")\n"@);
                } else {
                    lemma_suffix_add(close_paren(), "    "@ + r.code + " ("@ + crate::text::decimal(r.count) + ", first at line "@ + crate::text::decimal(l as nat), ")\n"@);
                }
            },
            None => {
                lemma_suffix_add(close_paren(), "    "@ + r.code + " ("@ + crate::text::decimal(r.count), ")\n"@);
            },
        }
    }
    lemma_suffix_add(close_paren(), file_rule_lines(rs.drop_last()), line);
}

proof fn lemma_file_blocks_close(fs: Seq<FileModel>)
    requires
        fs.len() > 0,
    ensures
        close_paren().is_suffix_of(file_blocks(fs)),
{
    let f = fs.last();
    let head = "  "@ + compacted(f.path) + " ("@ + crate::text::decimal(f.violations.len())
        + " violations)\n"@;
    let rules = file_rule_lines(
        at_most(ranked_tallies(rule_tallies(file_occurrences(f))), crate::report::MAX_RULES_PER_FILE as nat),
    );
    reveal_strlit(")\n");
    reveal_strlit(" violations)\n");
    assert(close_paren().is_suffix_of(" violations)\n"@)) by {
        assert(" violations)\n"@.subrange(11, 13) =~= close_paren());
    }
    lemma_suffix_add(close_paren(), "  "@ + compacted(f.path) + " ("@ + crate::text::decimal(f.violations.len()), " violations)\n"@);
    if rules.len() == 0 {
        assert(head + rules =~= head);
    } else {
        lemma_file_rule_lines_close(
            at_most(ranked_tallies(rule_tallies(file_occurrences(f))), crate::report::MAX_RULES_PER_FILE as nat),
        );
        lemma_suffix_add(close_paren(), head, rules);
    }
    assert(file_block(f) == head + rules);
    lemma_suffix_add(close_paren(), file_blocks(fs.drop_last()), file_block(f));
}

/// Everything of the untrimmed report before the "more files" note.
spec fn report_body(fs: Seq<FileModel>) -> Seq<char> {
    let ranked = ranked_files(fs);
    headline(total_of(fs), ranked.len(), fixable_violations(fs)) + crate::report::separator_line()
        + "Top rules:\n"@ + crate::report::rule_lines(
        at_most(ranked_tallies(rule_tallies(occurrences(ranked))), crate::report::MAX_REPORTED_RULES as nat),
    ) + "\n"@ + "Top files:\n"@ + file_blocks(at_most(ranked, MAX_REPORTED_FILES as nat))
}

proof fn lemma_flagged_nonempty(fs: Seq<FileModel>)
    requires
        total_of(fs) > 0,
    ensures
        flagged(fs).len() > 0,
{
    crate::report::lemma_flagged_total(fs);
    if flagged(fs).len() == 0 {
        assert(violation_counts(flagged(fs)) =~= Seq::<nat>::empty());
    }
}

/// For a run with violations, the report is its untrimmed text without the
/// final line break, and what precedes that line break is known.
proof fn lemma_report_outline(fs: Seq<FileModel>)
    requires
        total_of(fs) > 0,
    ensures
        ({
            let u = untrimmed_report(fs);
            let fixable = fixable_violations(fs);
            let files = ranked_files(fs).len();
            &&& u.len() >= 2
            &&& lint_report(fs) == u.drop_last()
            &&& headline(total_of(fs), files, fixable).is_prefix_of(u.drop_last())
            &&& fixable > 0 ==> hint_line(fixable).is_suffix_of(u.drop_last())
            &&& fixable == 0 ==> (u[u.len() - 2] == ')' || (u[u.len() - 2] == 's' && u[u.len()
                - 3] == 'e'))
        }),
{
    let u = untrimmed_report(fs);
    let fixable = fixable_violations(fs);
    let ranked = ranked_files(fs);
    let files = ranked.len();
    lemma_flagged_nonempty(fs);
    crate::report::lemma_ranked_total(fs);
    let shown = at_most(ranked, MAX_REPORTED_FILES as nat);
    assert(shown.len() > 0);
    let body = report_body(fs);
    lemma_file_blocks_close(shown);
    lemma_suffix_add(close_paren(), headline(total_of(fs), files, fixable) + crate::report::separator_line()
        + "Top rules:\n"@ + crate::report::rule_lines(
        at_most(ranked_tallies(rule_tallies(occurrences(ranked))), crate::report::MAX_REPORTED_RULES as nat),
    ) + "\n"@ + "Top files:\n"@, file_blocks(shown));
    assert(close_paren().is_suffix_of(body));
    let note = more_files_note(files);
    let hint = fix_hint(fixable);
    assert(u == body + note + hint);
    reveal_strlit(")\n");
    reveal_strlit("es\n");
    reveal_strlit(" more files\n");
    reveal_strlit("\n");
    reveal_strlit(" violations");
    reveal_strlit("SQLFluff: ");
    let h = headline(total_of(fs), files, fixable);
    // The headline starts the text.
    lemma_prefix_add(h, h, crate::report::separator_line());
    lemma_prefix_add(h, h + crate::report::separator_line(), "Top rules:\n"@);
    assert(h.is_prefix_of(body)) by {
        let a1 = h + crate::report::separator_line() + "Top rules:\n"@;
        let a2 = a1 + crate::report::rule_lines(
            at_most(ranked_tallies(rule_tallies(occurrences(ranked))), crate::report::MAX_REPORTED_RULES as nat),
        );
        lemma_prefix_add(h, a1, crate::report::rule_lines(
            at_most(ranked_tallies(rule_tallies(occurrences(ranked))), crate::report::MAX_REPORTED_RULES as nat),
        ));
        lemma_prefix_add(h, a2, "\n"@);
        lemma_prefix_add(h, a2 + "\n"@, "Top files:\n"@);
        lemma_prefix_add(h, a2 + "\n"@ + "Top files:\n"@, file_blocks(shown));
    }
    lemma_prefix_add(h, body, note);
    lemma_prefix_add(h, body + note, hint);
    assert(h[0] == 'S') by {
        lemma_prefix_add("SQLFluff: "@, "SQLFluff: "@, crate::text::decimal(total_of(fs)));
        let b1 = "SQLFluff: "@ + crate::text::decimal(total_of(fs));
        assert(b1[0] == 'S');
        assert(h[0] == b1[0]);
    }
    assert(u[0] == 'S');
    // What ends the text.
    if fixable > 0 {
        assert(hint == "\n"@ + hint_line(fixable) + "\n"@);
        assert(u.drop_last() =~= body + note + "\n"@ + hint_line(fixable));
        lemma_suffix_self(hint_line(fixable));
        lemma_suffix_add(hint_line(fixable), body + note + "\n"@, hint_line(fixable));
        let hl = hint_line(fixable);
        assert(hl.last() == 's') by {
            assert(hl == "💡 Run `sqlfluff fix` to auto-fix "@ + crate::text::decimal(fixable) + " violations"@);
        }
        assert(u[u.len() - 2] == hl.last());
        assert(u.last() == '\n');
    } else {
        assert(hint =~= Seq::<char>::empty());
        assert(u =~= body + note);
        if files > MAX_REPORTED_FILES {
            let n = "\n... +"@ + crate::text::decimal((files - MAX_REPORTED_FILES) as nat) + " more files\n"@;
            assert(note == n);
            assert("es\n"@.is_suffix_of(" more files\n"@)) by {
                assert(" more files\n"@.subrange(9, 12) =~= "es\n"@);
            }
            lemma_suffix_add("es\n"@, "\n... +"@ + crate::text::decimal((files - MAX_REPORTED_FILES) as nat), " more files\n"@);
            lemma_suffix_add("es\n"@, body, note);
            let tail = u.subrange(u.len() - 3, u.len() as int);
            assert(tail =~= "es\n"@);
            assert(tail[0] == u[u.len() - 3] && tail[1] == u[u.len() - 2] && tail[2] == u[u.len() - 1]);
            assert(u[u.len() - 2] == 's' && u[u.len() - 3] == 'e');
            assert(u.last() == '\n');
        } else {
            assert(note =~= Seq::<char>::empty());
            assert(u =~= body);
            let tail = body.subrange(body.len() - 2, body.len() as int);
            assert(tail =~= close_paren());
            assert(close_paren()[0] == ')' && close_paren()[1] == '\n');
            assert(tail[0] == body[body.len() - 2] && tail[1] == body[body.len() - 1]);
            assert(u[u.len() - 2] == ')');
            assert(u.last() == '\n');
        }
    }
    assert(u.last() == '\n');
    assert(!is_white_space(u[u.len() - 2]));
    let d = u.drop_last();
    assert(trim_start(u) == u);
    assert(trim_end(u) == trim_end(d));
    assert(d.last() == u[u.len() - 2]);
    assert(trim_end(d) == d);
    assert(h.len() < u.len());
    assert(h.is_prefix_of(d)) by {
        assert(d.subrange(0, h.len() as int) =~= u.subrange(0, h.len() as int));
    }
}

/// A report with violations starts with its headline, "SQLFluff: V
/// violations in N files" (with "(F fixable)" when some violations are
/// fixable) and a line break, where N counts the files with violations; it
/// ends with the `sqlfluff fix` hint exactly when some violations are
/// fixable.
pub proof fn law_report_headline_and_hint(fs: Seq<FileModel>)
    requires
        total_of(fs) > 0,
    ensures
        headline(total_of(fs), flagged(fs).len(), fixable_violations(fs)).is_prefix_of(
            lint_report(fs),
        ),
        fixable_violations(fs) > 0 <==> hint_line(fixable_violations(fs)).is_suffix_of(
            lint_report(fs),
        ),
{
    lemma_report_outline(fs);
    crate::report::lemma_ranked_total(fs);
    let f = fixable_violations(fs);
    let r = lint_report(fs);
    let hl = hint_line(f);
    if f == 0 && hl.is_suffix_of(r) {
        reveal_strlit(" violations");
        assert(hl == "💡 Run `sqlfluff fix` to auto-fix "@ + crate::text::decimal(f) + " violations"@);
        assert(hl.last() == 's');
        assert(hl[hl.len() - 2] == 'n');
        assert(r[r.len() - 1] == hl[hl.len() - 1]);
        assert(r[r.len() - 2] == hl[hl.len() - 2]);
    }
}

/// The smaller of `a` and `b`.
pub open spec fn min_nat(a: nat, b: nat) -> nat {
    if a <= b {
        a
    } else {
        b
    }
}

/// How many violations of rule `code` each file has.
pub open spec fn code_counts(fs: Seq<FileModel>, code: Seq<char>) -> Seq<nat> {
    fs.map_values(|f: FileModel| code_count(file_occurrences(f), code))
}

proof fn lemma_code_count_concat(a: Seq<Occurrence>, b: Seq<Occurrence>, code: Seq<char>)
    ensures
        code_count(a + b, code) == code_count(a, code) + code_count(b, code),
    decreases b.len(),
{
    if b.len() == 0 {
        assert(a + b =~= a);
    } else {
        lemma_code_count_concat(a, b.drop_last(), code);
        assert((a + b).drop_last() =~= a + b.drop_last());
    }
}

proof fn lemma_code_count_files(fs: Seq<FileModel>, code: Seq<char>)
    ensures
        code_count(occurrences(fs), code) == sum_of(code_counts(fs, code)),
    decreases fs.len(),
{
    if fs.len() > 0 {
        let d = fs.drop_last();
        lemma_code_count_files(d, code);
        lemma_code_count_concat(occurrences(d), file_occurrences(fs.last()), code);
        assert(code_counts(fs, code).drop_last() =~= code_counts(d, code));
    }
}

proof fn lemma_code_count_flagged(fs: Seq<FileModel>, code: Seq<char>)
    ensures
        sum_of(code_counts(flagged(fs), code)) == sum_of(code_counts(fs, code)),
    decreases fs.len(),
{
    if fs.len() > 0 {
        let d = fs.drop_last();
        lemma_code_count_flagged(d, code);
        assert(code_counts(fs, code).drop_last() =~= code_counts(d, code));
        if fs.last().violations.len() > 0 {
            assert(code_counts(flagged(fs), code).drop_last() =~= code_counts(flagged(d), code));
        } else {
            assert(file_occurrences(fs.last()) =~= Seq::<Occurrence>::empty());
            assert(code_count(file_occurrences(fs.last()), code) == 0);
        }
    }
}

/// Counting a rule over the ranked files counts it over all files.
proof fn lemma_code_count_ranked(fs: Seq<FileModel>, code: Seq<char>)
    ensures
        code_count(occurrences(ranked_files(fs)), code) == code_count(occurrences(fs), code),
{
    let g = flagged(fs);
    let counts = violation_counts(g);
    let order = ranking(counts);
    lemma_ranking_exists(counts);
    crate::ranking::lemma_ranking_is_permutation(counts, order);
    let w = code_counts(g, code);
    assert(code_counts(ranked_files(fs), code) =~= crate::ranking::permuted(w, order));
    crate::ranking::lemma_sum_permuted(w, order);
    lemma_code_count_files(ranked_files(fs), code);
    lemma_code_count_flagged(fs, code);
    lemma_code_count_files(fs, code);
}

/// The outline of a report with violations. It is, without its final line
/// break: the headline, the rule under it, "Top rules:" and the rule lines,
/// an empty line, "Top files:" and the file entries, the "more files" note
/// and the fix hint. The rules listed are the `MAX_REPORTED_RULES` most
/// frequent (or all, when there are fewer), each once, most frequent first,
/// each with its number of violations over all files, and no rule left out
/// has more violations than a listed one. The files listed are the first
/// `MAX_REPORTED_FILES` of the worst-first ranking (or all), each with at
/// most `MAX_RULES_PER_FILE` rule lines (all its rules when it has fewer).
/// The "more files" note appears exactly when more files have violations
/// than are listed.
pub proof fn law_report_sections(fs: Seq<FileModel>)
    requires
        total_of(fs) > 0,
    ensures
        ({
            let ranked = ranked_files(fs);
            let occ = occurrences(ranked);
            let rules = at_most(ranked_tallies(rule_tallies(occ)), crate::report::MAX_REPORTED_RULES as nat);
            let shown = at_most(ranked, MAX_REPORTED_FILES as nat);
            &&& lint_report(fs) == (headline(total_of(fs), ranked.len(), fixable_violations(fs))
                + crate::report::separator_line() + "Top rules:\n"@ + crate::report::rule_lines(rules) + "\n"@
                + "Top files:\n"@ + file_blocks(shown) + more_files_note(ranked.len()) + fix_hint(
                fixable_violations(fs),
            )).drop_last()
            &&& rules.len() == min_nat(codes(occ).len(), crate::report::MAX_REPORTED_RULES as nat)
            &&& forall|a: int, b: int|
                0 <= a < b < rules.len() ==> (#[trigger] rules[a]).code != (#[trigger] rules[b]).code
                    && rules[a].count >= rules[b].count
            &&& forall|a: int|
                0 <= a < rules.len() ==> (#[trigger] rules[a]).count == code_count(
                    occurrences(fs),
                    rules[a].code,
                )
            &&& forall|c: Seq<char>, a: int|
                #![trigger codes(occ).contains(c), rules[a]]
                codes(occ).contains(c) && 0 <= a < rules.len() && (forall|b: int|
                    0 <= b < rules.len() ==> (#[trigger] rules[b]).code != c) ==> code_count(
                    occurrences(fs),
                    c,
                ) <= rules[a].count
            &&& shown.len() == min_nat(flagged(fs).len(), MAX_REPORTED_FILES as nat)
            &&& forall|k: int|
                0 <= k < shown.len() ==> at_most(
                    ranked_tallies(rule_tallies(file_occurrences(#[trigger] shown[k]))),
                    crate::report::MAX_RULES_PER_FILE as nat,
                ).len() == min_nat(
                    codes(file_occurrences(shown[k])).len(),
                    crate::report::MAX_RULES_PER_FILE as nat,
                )
            &&& more_files_note(ranked.len()).len() > 0 <==> flagged(fs).len() > MAX_REPORTED_FILES
        }),
{
    lemma_report_outline(fs);
    crate::report::lemma_ranked_total(fs);
    let ranked = ranked_files(fs);
    let occ = occurrences(ranked);
    let t = rule_tallies(occ);
    let counts = tally_counts(t);
    let order = ranking(counts);
    lemma_ranking_exists(counts);
    crate::ranking::lemma_ranking_is_permutation(counts, order);
    law_rules_most_frequent_first(occ);
    crate::tally::lemma_codes_facts(occ, Seq::empty());
    let rt = ranked_tallies(t);
    let rules = at_most(rt, crate::report::MAX_REPORTED_RULES as nat);
    assert forall|a: int, b: int| 0 <= a < b < rules.len() implies (#[trigger] rules[a]).code
        != (#[trigger] rules[b]).code && rules[a].count >= rules[b].count by {
        assert(rules[a] == t[order[a]] && rules[b] == t[order[b]]);
        assert(order[a] != order[b]);
        assert(rt[a].count >= rt[b].count);
    }
    assert forall|a: int| 0 <= a < rules.len() implies (#[trigger] rules[a]).count == code_count(
        occurrences(fs),
        rules[a].code,
    ) by {
        let i = order[a];
        assert(rules[a] == t[i]);
        assert(t[i] == rule_of(occ, codes(occ)[i]));
        lemma_code_count_ranked(fs, codes(occ)[i]);
    }
    assert forall|c: Seq<char>, a: int|
        #![trigger codes(occ).contains(c), rules[a]]
        codes(occ).contains(c) && 0 <= a < rules.len() && (forall|b: int|
            0 <= b < rules.len() ==> (#[trigger] rules[b]).code != c) implies code_count(
            occurrences(fs),
            c,
        ) <= rules[a].count by {
        let i = choose|i: int| 0 <= i < codes(occ).len() && codes(occ)[i] == c;
        assert(t[i] == rule_of(occ, c));
        assert(order.contains(i));
        let p = choose|p: int| 0 <= p < order.len() && order[p] == i;
        if p < rules.len() {
            assert(rules[p] == t[i]);
            assert(rules[p].code != c);
        }
        assert(goes_before(counts, order[a], order[p]));
        assert(rules[a] == t[order[a]]);
        lemma_code_count_ranked(fs, c);
    }
    let shown = at_most(ranked, MAX_REPORTED_FILES as nat);
    assert forall|k: int| 0 <= k < shown.len() implies at_most(
        ranked_tallies(rule_tallies(file_occurrences(#[trigger] shown[k]))),
        crate::report::MAX_RULES_PER_FILE as nat,
    ).len() == min_nat(
        codes(file_occurrences(shown[k])).len(),
        crate::report::MAX_RULES_PER_FILE as nat,
    ) by {
        let ft = rule_tallies(file_occurrences(shown[k]));
        lemma_ranking_exists(tally_counts(ft));
    }
}

// ---------------------------------------------------- counting violations

/// Whether an occurrence comes with at least one automatic fix.
pub open spec fn is_fixable(o: Occurrence) -> bool {
    o.violation.fix_count > 0
}

proof fn lemma_fixable_in_filter(path: Seq<char>, vs: Seq<crate::tally::ViolationModel>)
    ensures
        crate::report::fixable_in(vs) == vs.map_values(
            |v: crate::tally::ViolationModel| Occurrence { path, violation: v },
        ).filter(|o: Occurrence| is_fixable(o)).len(),
    decreases vs.len(),
{
    let m = vs.map_values(|v: crate::tally::ViolationModel| Occurrence { path, violation: v });
    reveal_with_fuel(Seq::<Occurrence>::filter, 1);
    if vs.len() > 0 {
        lemma_fixable_in_filter(path, vs.drop_last());
        assert(m.drop_last() =~= vs.drop_last().map_values(
            |v: crate::tally::ViolationModel| Occurrence { path, violation: v },
        ));
    }
}

/// The headline's fixable count is the number of violations, over all
/// files, that come with at least one fix: each such violation counts once,
/// however many of them a file holds.
pub proof fn law_fixable_counts_every_fixable_violation(fs: Seq<FileModel>)
    ensures
        fixable_violations(fs) == occurrences(fs).filter(|o: Occurrence| is_fixable(o)).len(),
    decreases fs.len(),
{
    if fs.len() > 0 {
        let d = fs.drop_last();
        let f = fs.last();
        law_fixable_counts_every_fixable_violation(d);
        lemma_fixable_in_filter(f.path, f.violations);
        Seq::filter_distributes_over_add(occurrences(d), file_occurrences(f), |o: Occurrence| is_fixable(o));
        assert(fs.map_values(|g: FileModel| crate::report::fixable_in(g.violations)).drop_last()
            =~= d.map_values(|g: FileModel| crate::report::fixable_in(g.violations)));
    } else {
        assert(occurrences(fs).filter(|o: Occurrence| is_fixable(o)) =~= Seq::<Occurrence>::empty());
    }
}

/// The headline's violation total counts every violation of every file
/// once.
pub proof fn law_total_counts_every_violation(fs: Seq<FileModel>)
    ensures
        total_of(fs) == occurrences(fs).len(),
{
    crate::report::lemma_occurrences_len(fs);
}

/// The files the report counts and ranks are the files that have at least
/// one violation, in their input order.
pub proof fn law_counted_files_have_violations(fs: Seq<FileModel>)
    ensures
        flagged(fs) == fs.filter(|f: FileModel| f.violations.len() > 0),
    decreases fs.len(),
{
    reveal_with_fuel(Seq::<FileModel>::filter, 1);
    if fs.len() > 0 {
        law_counted_files_have_violations(fs.drop_last());
    }
}

/// Fixable counts add up: the count over two runs of files together is the
/// sum of their counts.
pub proof fn law_fixable_counts_add_up(a: Seq<FileModel>, b: Seq<FileModel>)
    ensures
        fixable_violations(a + b) == fixable_violations(a) + fixable_violations(b),
{
    law_fixable_counts_every_fixable_violation(a);
    law_fixable_counts_every_fixable_violation(b);
    law_fixable_counts_every_fixable_violation(a + b);
    lemma_occurrences_concat(a, b);
    Seq::filter_distributes_over_add(occurrences(a), occurrences(b), |o: Occurrence| is_fixable(o));
}

proof fn lemma_occurrences_concat(a: Seq<FileModel>, b: Seq<FileModel>)
    ensures
        occurrences(a + b) == occurrences(a) + occurrences(b),
    decreases b.len(),
{
    if b.len() == 0 {
        assert(a + b =~= a);
        assert(occurrences(b) =~= Seq::<Occurrence>::empty());
        assert(occurrences(a) + occurrences(b) =~= occurrences(a));
    } else {
        lemma_occurrences_concat(a, b.drop_last());
        assert((a + b).drop_last() =~= a + b.drop_last());
        assert((a + b).last() == b.last());
        assert(occurrences(a) + occurrences(b) =~= occurrences(a) + occurrences(b.drop_last())
            + file_occurrences(b.last()));
    }
}

/// A rule's count is the number of violations of that rule.
pub proof fn law_rule_count_is_number_of_its_violations(occ: Seq<Occurrence>, code: Seq<char>)
    ensures
        code_count(occ, code) == occ.filter(|o: Occurrence| o.violation.code == code).len(),
    decreases occ.len(),
{
    reveal_with_fuel(Seq::<Occurrence>::filter, 1);
    if occ.len() > 0 {
        law_rule_count_is_number_of_its_violations(occ.drop_last(), code);
    }
}

// -------------------------------------------------------- file breakdown

/// Each listed file's entry is its compact path and number of violations,
/// followed by its breakdown: the file's rules, each once with its number of
/// violations in that file, most frequent first, as many as the file has
/// up to `MAX_RULES_PER_FILE`; no rule of the file left out has more
/// violations than a rule that is shown, so a rule with the file's largest
/// count is always listed.
pub proof fn law_file_breakdown_most_frequent(f: FileModel)
    ensures
        file_block(f) == "  "@ + compacted(f.path) + " ("@ + crate::text::decimal(f.violations.len())
            + " violations)\n"@ + file_rule_lines(crate::report::file_breakdown(f)),
        ({
            let occ = file_occurrences(f);
            let shown = crate::report::file_breakdown(f);
            &&& shown.len() == min_nat(codes(occ).len(), crate::report::MAX_RULES_PER_FILE as nat)
            &&& forall|a: int, b: int|
                0 <= a < b < shown.len() ==> (#[trigger] shown[a]).code != (#[trigger] shown[b]).code
                    && shown[a].count >= shown[b].count
            &&& forall|a: int|
                0 <= a < shown.len() ==> codes(occ).contains((#[trigger] shown[a]).code)
                    && shown[a].count == occ.filter(|o: Occurrence| o.violation.code == shown[a].code).len()
            &&& forall|c: Seq<char>, a: int|
                #![trigger codes(occ).contains(c), shown[a]]
                codes(occ).contains(c) && 0 <= a < shown.len() && (forall|b: int|
                    0 <= b < shown.len() ==> (#[trigger] shown[b]).code != c) ==> occ.filter(
                    |o: Occurrence| o.violation.code == c,
                ).len() <= shown[a].count
        }),
{
    let occ = file_occurrences(f);
    let t = rule_tallies(occ);
    let counts = tally_counts(t);
    let order = ranking(counts);
    lemma_ranking_exists(counts);
    crate::ranking::lemma_ranking_is_permutation(counts, order);
    law_rules_most_frequent_first(occ);
    crate::tally::lemma_codes_facts(occ, Seq::empty());
    let rt = ranked_tallies(t);
    let shown = crate::report::file_breakdown(f);
    assert forall|a: int, b: int| 0 <= a < b < shown.len() implies (#[trigger] shown[a]).code
        != (#[trigger] shown[b]).code && shown[a].count >= shown[b].count by {
        assert(shown[a] == t[order[a]] && shown[b] == t[order[b]]);
        assert(order[a] != order[b]);
        assert(rt[a].count >= rt[b].count);
    }
    assert forall|a: int| 0 <= a < shown.len() implies codes(occ).contains((#[trigger] shown[a]).code)
        && shown[a].count == occ.filter(|o: Occurrence| o.violation.code == shown[a].code).len() by {
        let i = order[a];
        assert(shown[a] == t[i]);
        assert(t[i] == rule_of(occ, codes(occ)[i]));
        law_rule_count_is_number_of_its_violations(occ, codes(occ)[i]);
    }
    assert forall|c: Seq<char>, a: int|
        #![trigger codes(occ).contains(c), shown[a]]
        codes(occ).contains(c) && 0 <= a < shown.len() && (forall|b: int|
            0 <= b < shown.len() ==> (#[trigger] shown[b]).code != c) implies occ.filter(
            |o: Occurrence| o.violation.code == c,
        ).len() <= shown[a].count by {
        let i = choose|i: int| 0 <= i < codes(occ).len() && codes(occ)[i] == c;
        assert(t[i] == rule_of(occ, c));
        assert(order.contains(i));
        let p = choose|p: int| 0 <= p < order.len() && order[p] == i;
        if p < shown.len() {
            assert(shown[p] == t[i]);
        }
        assert(goes_before(counts, order[a], order[p]));
        assert(shown[a] == t[order[a]]);
        law_rule_count_is_number_of_its_violations(occ, c);
    }
}

// ------------------------------------------------------ relative dbt roots

/// The dbt roots, written out.
pub open spec fn dbt_root_names() -> Seq<Seq<char>> {
    seq!["models"@, "tests"@, "macros"@, "seeds"@, "snapshots"@, "analyses"@]
}

/// `/root/` for the dbt root with index `j`.
pub open spec fn root_dir(j: int) -> Seq<char> {
    seq!['/'] + dbt_root_names()[j] + seq!['/']
}

/// A path written with forward slashes that starts at any of the six dbt
/// roots (`models/`, `tests/`, `macros/`, `seeds/`, `snapshots/`,
/// `analyses/`), and has no `/root/` directory inside for any root, is
/// shown as it is.
pub proof fn law_relative_root_paths_kept(path: Seq<char>, r: int)
    requires
        0 <= r < 6,
        dbt_root_names()[r].push('/').is_prefix_of(path),
        !path.contains('\\'),
        forall|j: int, k: int|
            0 <= j < 6 ==> !#[trigger] crate::paths::occurs_at(path, root_dir(j), k),
    ensures
        compacted(path) == path,
{
    assert(dbt_root_names() == dbt_roots());
    assert(with_forward_slashes(path) =~= path) by {
        assert forall|k: int| 0 <= k < path.len() implies path[k] != '\\' by {
            if path[k] == '\\' {
                assert(path.contains('\\'));
            }
        }
    }
    lemma_no_cut(path, 0);
    assert(crate::paths::starts_at_root(path)) by {
        assert(dbt_roots()[r].push('/').is_prefix_of(path));
    }
}

proof fn lemma_no_cut(p: Seq<char>, i: int)
    requires
        0 <= i,
        forall|j: int, k: int|
            0 <= j < 6 ==> !#[trigger] crate::paths::occurs_at(p, root_dir(j), k),
    ensures
        cut_at_root(p, i) is None,
    decreases DBT_ROOT_COUNT - i,
{
    assert(dbt_root_names() == dbt_roots());
    if i < DBT_ROOT_COUNT {
        crate::paths::lemma_rfind_occurs(p, crate::paths::root_needle(i));
        assert(root_dir(i) == crate::paths::root_needle(i));
        if let Some(x) = rfind(p, crate::paths::root_needle(i)) {
            assert(!crate::paths::occurs_at(p, root_dir(i), x));
        }
        lemma_no_cut(p, i + 1);
    }
}

// ------------------------------------------------------- routing of calls

/// A call is a lint call exactly when it has no argument or starts with
/// `lint`. A lint call runs `lint` followed by the caller's arguments after
/// the leading `lint`; any other call, such as `--version` or `fix`, reaches
/// sqlfluff with its arguments unchanged.
pub proof fn law_lint_routing(args: Seq<Seq<char>>)
    ensures
        args.len() > 0 && args[0] != "lint"@ ==> !is_lint_call(args) && sqlfluff_args(args) == args,
        args.len() == 0 ==> is_lint_call(args) && sqlfluff_args(args) == seq![
            "lint"@,
            "--format"@,
            "json"@,
        ],
        args.len() > 0 && args[0] == "lint"@ ==> is_lint_call(args) && sqlfluff_args(args)[0]
            == "lint"@ && args.skip(1).is_suffix_of(sqlfluff_args(args)),
{
    if args.len() == 0 {
        assert(!sets_format(args));
        assert(args.skip(0) =~= Seq::<Seq<char>>::empty());
        assert(sqlfluff_args(args) =~= seq!["lint"@, "--format"@, "json"@]);
    }
    if args.len() > 0 && args[0] == "lint"@ {
        let rest = args.skip(1);
        let out = sqlfluff_args(args);
        let head = seq!["lint"@] + if sets_format(args) {
            Seq::<Seq<char>>::empty()
        } else {
            seq!["--format"@, "json"@]
        };
        assert(out == head + rest);
        assert(out.subrange(out.len() - rest.len(), out.len() as int) =~= rest);
    }
}

/// The output of a lint call is read as JSON when the caller set no output
/// format, or asked for JSON anywhere among the arguments: `--format json`
/// or `-f json` (whatever follows), `--format=json` or `-f=json`. It is not
/// when the caller set a format and asked for JSON nowhere.
pub proof fn law_json_filter_choice(args: Seq<Seq<char>>)
    ensures
        (exists|i: int|
            0 <= i && i + 1 < args.len() && ((#[trigger] args[i]) == "--format"@ || args[i] == "-f"@)
                && args[i + 1] == "json"@) ==> uses_json_filter(args),
        (exists|i: int|
            0 <= i < args.len() && ((#[trigger] args[i]) == "--format=json"@ || args[i] == "-f=json"@))
            ==> uses_json_filter(args),
        (forall|i: int|
            0 <= i < args.len() ==> !(#[trigger] args[i] == "--format"@ || args[i] == "-f"@
                || "--format="@.is_prefix_of(args[i]) || "-f="@.is_prefix_of(args[i])))
            ==> uses_json_filter(args),
        (exists|i: int| 0 <= i < args.len() && #[trigger] args[i] == "-f=yaml"@)
            && (forall|i: int|
            0 <= i < args.len() ==> #[trigger] args[i] != "--format=json"@ && args[i] != "-f=json"@
                && args[i] != "--format"@ && args[i] != "-f"@) ==> !uses_json_filter(args),
{
    if exists|i: int|
        0 <= i && i + 1 < args.len() && ((#[trigger] args[i]) == "--format"@ || args[i] == "-f"@)
            && args[i + 1] == "json"@ {
        let i = choose|i: int|
            0 <= i && i + 1 < args.len() && ((#[trigger] args[i]) == "--format"@ || args[i] == "-f"@)
                && args[i + 1] == "json"@;
        assert(asks_json_at(args, i));
    }
    if exists|i: int| 0 <= i < args.len() && ((#[trigger] args[i]) == "--format=json"@ || args[i] == "-f=json"@) {
        let i = choose|i: int| 0 <= i < args.len() && ((#[trigger] args[i]) == "--format=json"@ || args[i] == "-f=json"@);
        assert(asks_json_at(args, i));
    }
    if (exists|i: int| 0 <= i < args.len() && #[trigger] args[i] == "-f=yaml"@)
        && (forall|i: int|
        0 <= i < args.len() ==> #[trigger] args[i] != "--format=json"@ && args[i] != "-f=json"@
            && args[i] != "--format"@ && args[i] != "-f"@) {
        let i = choose|i: int| 0 <= i < args.len() && #[trigger] args[i] == "-f=yaml"@;
        reveal_strlit("-f=yaml");
        reveal_strlit("-f=");
        assert("-f="@.is_prefix_of(args[i])) by {
            assert(args[i].subrange(0, 3) =~= "-f="@);
        }
        assert(is_format_flag(args[i]));
        assert forall|j: int| 0 <= j < args.len() implies !#[trigger] asks_json_at(args, j) by {}
    }
}

// -------------------------------------------------------------- truncation

/// Truncated text is the text itself when it fits, and otherwise never
/// longer than the limit (or than the "..." marker, for limits under three).
pub proof fn law_truncated_fits(s: Seq<char>, max_len: nat)
    ensures
        s.len() <= max_len ==> truncated(s, max_len) == s,
        truncated(s, max_len).len() <= if max_len < 3 { 3 } else { max_len },
{
}

// ------------------------------------------------------------- invocation

/// Calls other than `lint` reach sqlfluff untouched and their output is
/// never read as JSON, so sqlfluff answers for its own subcommands.
pub proof fn law_other_calls_pass_through(args: Seq<Seq<char>>, use_json_filter: bool, stdout: Seq<char>)
    requires
        !is_lint_call(args),
    ensures
        sqlfluff_args(args) == args,
        !applies_json_filter(is_lint_call(args), use_json_filter, stdout),
{
}

/// The number of arguments of `args` that set the output format.
pub open spec fn format_flag_count(args: Seq<Seq<char>>) -> nat
    decreases args.len(),
{
    if args.len() == 0 {
        0
    } else {
        format_flag_count(args.drop_last()) + if is_format_flag(args.last()) {
            1nat
        } else {
            0nat
        }
    }
}

proof fn lemma_format_count_concat(a: Seq<Seq<char>>, b: Seq<Seq<char>>)
    ensures
        format_flag_count(a + b) == format_flag_count(a) + format_flag_count(b),
    decreases b.len(),
{
    if b.len() > 0 {
        lemma_format_count_concat(a, b.drop_last());
        assert((a + b).drop_last() =~= a + b.drop_last());
    } else {
        assert(a + b =~= a);
    }
}

proof fn lemma_format_count_zero(args: Seq<Seq<char>>)
    requires
        !sets_format(args),
    ensures
        format_flag_count(args) == 0,
    decreases args.len(),
{
    if args.len() > 0 {
        let d = args.drop_last();
        assert forall|i: int| 0 <= i < d.len() implies !is_format_flag(#[trigger] d[i]) by {
            assert(args[i] == d[i]);
        }
        lemma_format_count_zero(d);
        assert(!is_format_flag(args[args.len() - 1]));
    }
}

/// A lint call sets the output format once: with `--format json` when the
/// caller set none, and otherwise only as often as the caller did (sqlfluff
/// refuses a call that sets it twice).
pub proof fn law_format_set_once(args: Seq<Seq<char>>)
    requires
        is_lint_call(args),
    ensures
        !sets_format(args) ==> format_flag_count(sqlfluff_args(args)) == 1,
        sets_format(args) ==> format_flag_count(sqlfluff_args(args)) == format_flag_count(args),
{
    reveal_strlit("lint");
    reveal_strlit("json");
    reveal_strlit("--format");
    reveal_strlit("-f");
    reveal_strlit("--format=");
    reveal_strlit("-f=");
    let lint = seq!["lint"@];
    assert("lint"@[0] != "-f="@[0] && "lint"@ != "-f"@ && "lint"@ != "--format"@);
    assert(!"-f="@.is_prefix_of("lint"@)) by {
        assert("lint"@.subrange(0, 3)[0] != "-f="@[0]);
    }
    assert(!is_format_flag("lint"@));
    assert("json"@.len() == 4 && "-f"@.len() == 2 && "--format"@.len() == 8);
    assert("json"@ != "-f"@ && "json"@ != "--format"@);
    assert(!"-f="@.is_prefix_of("json"@)) by {
        assert("json"@.subrange(0, 3)[0] != "-f="@[0]);
    }
    assert(!is_format_flag("json"@));
    assert(is_format_flag("--format"@));
    assert(format_flag_count(lint) == 0) by {
        assert(lint.drop_last() =~= Seq::<Seq<char>>::empty());
        assert(format_flag_count(Seq::<Seq<char>>::empty()) == 0);
        assert(lint.last() == "lint"@);
    }
    let skip: int = if args.len() > 0 && args[0] == "lint"@ { 1 } else { 0 };
    let rest = args.skip(skip);
    if skip == 1 {
        assert(args =~= lint + rest);
        lemma_format_count_concat(lint, rest);
    } else {
        assert(rest =~= args);
    }
    if sets_format(args) {
        assert(sqlfluff_args(args) =~= lint + Seq::empty() + rest);
        assert(lint + Seq::empty() =~= lint);
        lemma_format_count_concat(lint, rest);
    } else {
        let inject = seq!["--format"@, "json"@];
        assert(format_flag_count(inject) == 1) by {
            assert(inject.drop_last() =~= seq!["--format"@]);
            assert(inject.drop_last().drop_last() =~= Seq::<Seq<char>>::empty());
            assert(format_flag_count(Seq::<Seq<char>>::empty()) == 0);
            assert(inject.last() == "json"@);
            assert(inject.drop_last().last() == "--format"@);
            assert(format_flag_count(seq!["--format"@]) == 1);
        }
        lemma_format_count_zero(args);
        lemma_format_count_concat(lint, inject);
        lemma_format_count_concat(lint + inject, rest);
    }
}

} // verus!
