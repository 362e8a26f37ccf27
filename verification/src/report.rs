//! The condensed report of a `sqlfluff lint` run: totals, the rules that
//! fired most, and the files with the most violations.

use vstd::prelude::*;

use crate::paths::{compact_path, compacted, located, sample_location};
use crate::ranking::{
    int_indices, is_ranking, lemma_ranking_exists, lemma_ranking_is_permutation, lemma_sum_permuted, lemma_sum_prefix,
    nat_keys, permuted, rank_descending, ranking, sum_of,
};
use crate::tally::{
    add_occurrence, file_occurrences, file_tallies, files_model, rule_tallies, tallies_model,
    tally_counts, FileModel, Occurrence, RuleModel, RuleTally, SqlfluffFile, ViolationModel,
};
use crate::text::{decimal, push_count, push_decimal, push_str, trim, trim_str, truncate, truncated};

verus! {

broadcast use vstd::string::group_string_axioms;

/// How many rules the report lists.
pub const MAX_REPORTED_RULES: usize = 10;

/// How many files the report lists.
pub const MAX_REPORTED_FILES: usize = 10;

/// How many rules the report lists under each file.
pub const MAX_RULES_PER_FILE: usize = 3;

/// The number of violations of each file.
pub open spec fn violation_counts(fs: Seq<FileModel>) -> Seq<nat> {
    fs.map_values(|f: FileModel| f.violations.len())
}

/// The number of violations over all files.
pub open spec fn total_violations(fs: Seq<FileModel>) -> nat {
    sum_of(violation_counts(fs))
}

/// How many of `vs` come with at least one automatic fix.
pub open spec fn fixable_in(vs: Seq<ViolationModel>) -> nat
    decreases vs.len(),
{
    if vs.len() == 0 {
        0
    } else {
        fixable_in(vs.drop_last()) + if vs.last().fix_count > 0 {
            1nat
        } else {
            0nat
        }
    }
}

/// How many violations over all files come with at least one automatic fix.
pub open spec fn fixable_violations(fs: Seq<FileModel>) -> nat {
    sum_of(fs.map_values(|f: FileModel| fixable_in(f.violations)))
}

/// The files that have at least one violation, in their input order.
pub open spec fn flagged(fs: Seq<FileModel>) -> Seq<FileModel>
    decreases fs.len(),
{
    if fs.len() == 0 {
        Seq::empty()
    } else if fs.last().violations.len() > 0 {
        flagged(fs.drop_last()).push(fs.last())
    } else {
        flagged(fs.drop_last())
    }
}

/// The files with violations, most violations first, ties in their
/// input order.
pub open spec fn ranked_files(fs: Seq<FileModel>) -> Seq<FileModel> {
    let g = flagged(fs);
    ranking(violation_counts(g)).map_values(|i: int| g[i])
}

/// All violations of `fs`, file by file, each with its file's path.
pub open spec fn occurrences(fs: Seq<FileModel>) -> Seq<Occurrence>
    decreases fs.len(),
{
    if fs.len() == 0 {
        Seq::empty()
    } else {
        occurrences(fs.drop_last()) + file_occurrences(fs.last())
    }
}

/// Rule tallies, largest count first, ties in order of first appearance.
pub open spec fn ranked_tallies(t: Seq<RuleModel>) -> Seq<RuleModel> {
    ranking(tally_counts(t)).map_values(|i: int| t[i])
}

/// The first `n` elements of `s`, or all of them when there are fewer.
pub open spec fn at_most<A>(s: Seq<A>, n: nat) -> Seq<A> {
    if s.len() <= n {
        s
    } else {
        s.take(n as int)
    }
}

/// A line of the "Top rules" section.
pub open spec fn rule_line(r: RuleModel) -> Seq<char> {
    "  "@ + r.code + " ("@ + decimal(r.count) + "x, first at "@ + located(r.path, r.line) + ")\n"@
}

/// The lines of the "Top rules" section for `rs`.
pub open spec fn rule_lines(rs: Seq<RuleModel>) -> Seq<char>
    decreases rs.len(),
{
    if rs.len() == 0 {
        Seq::empty()
    } else {
        rule_lines(rs.drop_last()) + rule_line(rs.last())
    }
}

/// A line of a file's rule breakdown.
pub open spec fn file_rule_line(r: RuleModel) -> Seq<char> {
    match r.line {
        Some(l) => if r.count == 1 {
            "    "@ + r.code + " (1, line "@ + decimal(l as nat) + ")\n"@
        } else {
            "    "@ + r.code + " ("@ + decimal(r.count) + ", first at line "@ + decimal(l as nat)
                + ")\n"@
        },
        None => "    "@ + r.code + " ("@ + decimal(r.count) + ")\n"@,
    }
}

/// The lines of a file's rule breakdown for `rs`.
pub open spec fn file_rule_lines(rs: Seq<RuleModel>) -> Seq<char>
    decreases rs.len(),
{
    if rs.len() == 0 {
        Seq::empty()
    } else {
        file_rule_lines(rs.drop_last()) + file_rule_line(rs.last())
    }
}

/// The rules listed under file `f`: its most frequent rules, at most
/// `MAX_RULES_PER_FILE` of them.
pub open spec fn file_breakdown(f: FileModel) -> Seq<RuleModel> {
    at_most(ranked_tallies(rule_tallies(file_occurrences(f))), MAX_RULES_PER_FILE as nat)
}

/// A file's entry in the "Top files" section: its compact path and count,
/// then its most frequent rules.
pub open spec fn file_block(f: FileModel) -> Seq<char> {
    "  "@ + compacted(f.path) + " ("@ + decimal(f.violations.len()) + " violations)\n"@
        + file_rule_lines(file_breakdown(f))
}

/// The entries of the "Top files" section for `fs`.
pub open spec fn file_blocks(fs: Seq<FileModel>) -> Seq<char>
    decreases fs.len(),
{
    if fs.len() == 0 {
        Seq::empty()
    } else {
        file_blocks(fs.drop_last()) + file_block(fs.last())
    }
}

/// The first line of the report.
pub open spec fn headline(total: nat, files: nat, fixable: nat) -> Seq<char> {
    "SQLFluff: "@ + decimal(total) + " violations in "@ + decimal(files) + " files"@ + if fixable
        > 0 {
        " ("@ + decimal(fixable) + " fixable)"@
    } else {
        Seq::empty()
    } + "\n"@
}

/// The rule under the headline.
pub open spec fn separator_line() -> Seq<char> {
    "═══════════════════════════════════════\n"@
}

/// The note on files left out of the "Top files" section.
pub open spec fn more_files_note(files: nat) -> Seq<char> {
    if files > MAX_REPORTED_FILES {
        "\n... +"@ + decimal((files - MAX_REPORTED_FILES) as nat) + " more files\n"@
    } else {
        Seq::empty()
    }
}

/// The line that suggests `sqlfluff fix` for `fixable` violations.
pub open spec fn hint_line(fixable: nat) -> Seq<char> {
    "💡 Run `sqlfluff fix` to auto-fix "@ + decimal(fixable) + " violations"@
}

/// The closing hint on automatic fixes, after an empty line.
pub open spec fn fix_hint(fixable: nat) -> Seq<char> {
    if fixable > 0 {
        "\n"@ + hint_line(fixable) + "\n"@
    } else {
        Seq::empty()
    }
}

/// The report before its surrounding white space is trimmed.
pub open spec fn untrimmed_report(fs: Seq<FileModel>) -> Seq<char> {
    let ranked = ranked_files(fs);
    let fixable = fixable_violations(fs);
    headline(total_violations(fs), ranked.len(), fixable) + separator_line() + "Top rules:\n"@
        + rule_lines(
        at_most(ranked_tallies(rule_tallies(occurrences(ranked))), MAX_REPORTED_RULES as nat),
    ) + "\n"@ + "Top files:\n"@ + file_blocks(at_most(ranked, MAX_REPORTED_FILES as nat))
        + more_files_note(ranked.len()) + fix_hint(fixable)
}

/// The text reported when no file has a violation.
pub open spec fn clean_report() -> Seq<char> {
    "✓ SQLFluff: No violations found"@
}

/// The condensed report for the lint results `fs`.
pub open spec fn lint_report(fs: Seq<FileModel>) -> Seq<char> {
    if total_violations(fs) == 0 {
        clean_report()
    } else {
        trim(untrimmed_report(fs))
    }
}

// ------------------------------------------------------------------ proofs

proof fn lemma_counts_take(fs: Seq<FileModel>, i: int)
    requires
        0 <= i < fs.len(),
    ensures
        violation_counts(fs.take(i + 1)) == violation_counts(fs.take(i)).push(
            fs[i].violations.len(),
        ),
        fs.map_values(|f: FileModel| fixable_in(f.violations)).take(i + 1) == fs.map_values(
            |f: FileModel| fixable_in(f.violations),
        ).take(i).push(fixable_in(fs[i].violations)),
        violation_counts(fs.take(i)) == violation_counts(fs).take(i),
{
    assert(violation_counts(fs.take(i + 1)) =~= violation_counts(fs.take(i)).push(
        fs[i].violations.len(),
    ));
    assert(fs.map_values(|f: FileModel| fixable_in(f.violations)).take(i + 1) =~= fs.map_values(
        |f: FileModel| fixable_in(f.violations),
    ).take(i).push(fixable_in(fs[i].violations)));
    assert(violation_counts(fs.take(i)) =~= violation_counts(fs).take(i));
}

proof fn lemma_fixable_in_bounded(vs: Seq<ViolationModel>)
    ensures
        fixable_in(vs) <= vs.len(),
    decreases vs.len(),
{
    if vs.len() > 0 {
        lemma_fixable_in_bounded(vs.drop_last());
    }
}

/// Leaving out the files without violations keeps the total.
pub(crate) proof fn lemma_flagged_total(fs: Seq<FileModel>)
    ensures
        total_violations(flagged(fs)) == total_violations(fs),
        flagged(fs).len() <= fs.len(),
    decreases fs.len(),
{
    if fs.len() > 0 {
        let d = fs.drop_last();
        lemma_flagged_total(d);
        assert(violation_counts(fs).drop_last() =~= violation_counts(d));
        if fs.last().violations.len() > 0 {
            let g = flagged(d).push(fs.last());
            assert(violation_counts(g).drop_last() =~= violation_counts(flagged(d)));
        }
    }
}

/// Ranking the files keeps the total.
pub(crate) proof fn lemma_ranked_total(fs: Seq<FileModel>)
    ensures
        total_violations(ranked_files(fs)) == total_violations(fs),
        ranked_files(fs).len() == flagged(fs).len(),
{
    let g = flagged(fs);
    let counts = violation_counts(g);
    let order = ranking(counts);
    lemma_ranking_exists(counts);
    lemma_ranking_is_permutation(counts, order);
    lemma_sum_permuted(counts, order);
    assert(violation_counts(ranked_files(fs)) =~= permuted(counts, order));
    lemma_flagged_total(fs);
}

/// All violations of the files number as many as the total.
pub(crate) proof fn lemma_occurrences_len(fs: Seq<FileModel>)
    ensures
        occurrences(fs).len() == total_violations(fs),
    decreases fs.len(),
{
    if fs.len() > 0 {
        lemma_occurrences_len(fs.drop_last());
        assert(violation_counts(fs).drop_last() =~= violation_counts(fs.drop_last()));
    }
}

// -------------------------------------------------------------- execution

/// The total number of violations and how many of them are fixable.
fn count_violations(files: &Vec<SqlfluffFile>) -> (r: (usize, usize))
    requires
        total_violations(files_model(files@)) <= usize::MAX,
    ensures
        r.0 == total_violations(files_model(files@)),
        r.1 == fixable_violations(files_model(files@)),
{
    let ghost fm = files_model(files@);
    let ghost fixes = fm.map_values(|f: FileModel| fixable_in(f.violations));
    let mut total: usize = 0;
    let mut fixable: usize = 0;
    let mut i: usize = 0;
    while i < files.len()
        invariant
            fm == files_model(files@),
            fixes == fm.map_values(|f: FileModel| fixable_in(f.violations)),
            total_violations(fm) <= usize::MAX,
            i <= files.len(),
            total == sum_of(violation_counts(fm.take(i as int))),
            fixable == sum_of(fixes.take(i as int)),
            fixable <= total,
        decreases files.len() - i,
    {
        let vs = &files[i].violations;
        let ghost vm = fm[i as int].violations;
        assert(vm == vs@.map_values(|v: crate::tally::SqlfluffViolation| v@));
        let mut here: usize = 0;
        let mut j: usize = 0;
        while j < vs.len()
            invariant
                vm == vs@.map_values(|v: crate::tally::SqlfluffViolation| v@),
                j <= vs.len(),
                here == fixable_in(vm.take(j as int)),
                here <= j,
            decreases vs.len() - j,
        {
            assert(vm.take(j + 1).drop_last() =~= vm.take(j as int));
            if vs[j].fix_count > 0 {
                here = here + 1;
            }
            j = j + 1;
        }
        assert(vm.take(vs.len() as int) =~= vm);
        proof {
            lemma_counts_take(fm, i as int);
            lemma_sum_prefix(violation_counts(fm), i + 1);
            lemma_fixable_in_bounded(vm);
        }
        assert(fm.take(i + 1) =~= fm.take(i as int).push(fm[i as int]));
        assert(violation_counts(fm.take(i + 1)) =~= violation_counts(fm).take(i + 1));
        assert(violation_counts(fm.take(i + 1)).drop_last() =~= violation_counts(fm.take(i as int)));
        assert(fixes.take(i + 1).drop_last() =~= fixes.take(i as int));
        assert(vm.len() == vs.len());
        total = total + vs.len();
        fixable = fixable + here;
        i = i + 1;
    }
    assert(fm.take(files.len() as int) =~= fm);
    assert(fixes.take(files.len() as int) =~= fixes);
    (total, fixable)
}

/// The indices of the files that have violations, in order.
fn flagged_indices(files: &Vec<SqlfluffFile>) -> (idx: Vec<usize>)
    ensures
        idx.len() == flagged(files_model(files@)).len(),
        forall|k: int|
            0 <= k < idx.len() ==> #[trigger] idx@[k] < files.len() && files_model(files@)[idx@[k] as int]
                == flagged(files_model(files@))[k],
{
    let ghost fm = files_model(files@);
    let mut idx: Vec<usize> = Vec::new();
    let mut i: usize = 0;
    while i < files.len()
        invariant
            fm == files_model(files@),
            i <= files.len(),
            idx.len() == flagged(fm.take(i as int)).len(),
            forall|k: int|
                0 <= k < idx.len() ==> #[trigger] idx@[k] < i && fm[idx@[k] as int] == flagged(
                    fm.take(i as int),
                )[k],
        decreases files.len() - i,
    {
        assert(fm.take(i + 1).drop_last() =~= fm.take(i as int));
        if files[i].violations.len() > 0 {
            idx.push(i);
        }
        i = i + 1;
    }
    assert(fm.take(files.len() as int) =~= fm);
    idx
}

/// The indices of the files with violations, most violations first, ties in
/// their input order.
fn ranked_file_indices(files: &Vec<SqlfluffFile>) -> (ranked: Vec<usize>)
    ensures
        ranked.len() == ranked_files(files_model(files@)).len(),
        forall|k: int|
            0 <= k < ranked.len() ==> #[trigger] ranked@[k] < files.len() && files_model(files@)[ranked@[k] as int]
                == ranked_files(files_model(files@))[k],
{
    let ghost fm = files_model(files@);
    let ghost g = flagged(fm);
    let idx = flagged_indices(files);
    let mut keys: Vec<usize> = Vec::new();
    let mut k: usize = 0;
    while k < idx.len()
        invariant
            fm == files_model(files@),
            g == flagged(fm),
            idx.len() == g.len(),
            forall|q: int| 0 <= q < idx.len() ==> #[trigger] idx@[q] < files.len() && fm[idx@[q] as int] == g[q],
            k <= idx.len(),
            nat_keys(keys@) == violation_counts(g).take(k as int),
        decreases idx.len() - k,
    {
        assert(fm[idx@[k as int] as int] == g[k as int]);
        assert(fm[idx@[k as int] as int].violations.len() == files@[idx@[k as int] as int].violations.len());
        let c = files[idx[k]].violations.len();
        assert(c as nat == violation_counts(g)[k as int]);
        let ghost old_keys = keys@;
        keys.push(c);
        assert(nat_keys(keys@) =~= nat_keys(old_keys).push(c as nat));
        assert(violation_counts(g).take(k + 1) =~= violation_counts(g).take(k as int).push(
            violation_counts(g)[k as int],
        ));
        k = k + 1;
    }
    assert(violation_counts(g).take(idx.len() as int) =~= violation_counts(g));
    let order = rank_descending(&keys);
    let mut ranked: Vec<usize> = Vec::new();
    let mut k: usize = 0;
    while k < order.len()
        invariant
            fm == files_model(files@),
            g == flagged(fm),
            idx.len() == g.len(),
            forall|q: int| 0 <= q < idx.len() ==> #[trigger] idx@[q] < files.len() && fm[idx@[q] as int] == g[q],
            is_ranking(violation_counts(g), int_indices(order@)),
            int_indices(order@) == ranking(violation_counts(g)),
            k <= order.len(),
            ranked.len() == k,
            forall|q: int|
                0 <= q < k ==> #[trigger] ranked@[q] < files.len() && fm[ranked@[q] as int] == ranked_files(fm)[q],
        decreases order.len() - k,
    {
        let ghost o = int_indices(order@)[k as int];
        assert(0 <= o < g.len());
        let f = idx[order[k]];
        ranked.push(f);
        k = k + 1;
    }
    ranked
}

/// The tallies of all rules over the ranked files, in order of first
/// appearance.
fn global_tallies(files: &Vec<SqlfluffFile>, ranked: &Vec<usize>) -> (out: Vec<RuleTally>)
    requires
        total_violations(files_model(files@)) <= usize::MAX,
        ranked.len() == ranked_files(files_model(files@)).len(),
        forall|k: int|
            0 <= k < ranked.len() ==> #[trigger] ranked@[k] < files.len() && files_model(files@)[ranked@[k] as int]
                == ranked_files(files_model(files@))[k],
    ensures
        tallies_model(out@) == rule_tallies(occurrences(ranked_files(files_model(files@)))),
{
    let ghost fm = files_model(files@);
    let ghost rf = ranked_files(fm);
    proof {
        lemma_ranked_total(fm);
    }
    let mut out: Vec<RuleTally> = Vec::new();
    let mut k: usize = 0;
    assert(rf.take(0) =~= Seq::<FileModel>::empty());
    assert(tallies_model(out@) =~= Seq::<RuleModel>::empty());
    while k < ranked.len()
        invariant
            fm == files_model(files@),
            rf == ranked_files(fm),
            total_violations(rf) <= usize::MAX,
            ranked.len() == rf.len(),
            forall|q: int|
                0 <= q < ranked.len() ==> #[trigger] ranked@[q] < files.len() && fm[ranked@[q] as int] == rf[q],
            k <= ranked.len(),
            tallies_model(out@) == rule_tallies(occurrences(rf.take(k as int))),
        decreases ranked.len() - k,
    {
        let f = &files[ranked[k]];
        let ghost before = occurrences(rf.take(k as int));
        let ghost fo = file_occurrences(rf[k as int]);
        assert(f@ == rf[k as int]);
        proof {
            assert(rf.take(k + 1).drop_last() =~= rf.take(k as int));
            assert(occurrences(rf.take(k + 1)) == before + fo);
            lemma_occurrences_len(rf.take(k + 1));
            lemma_sum_prefix(violation_counts(rf), k + 1);
            assert(violation_counts(rf.take(k + 1)) =~= violation_counts(rf).take(k + 1));
        }
        let mut j: usize = 0;
        assert(before + fo.take(0) =~= before);
        while j < f.violations.len()
            invariant
                f@ == rf[k as int],
                fo == file_occurrences(rf[k as int]),
                (before + fo).len() <= usize::MAX,
                j <= f.violations.len(),
                tallies_model(out@) == rule_tallies(before + fo.take(j as int)),
            decreases f.violations.len() - j,
        {
            assert(before + fo.take(j + 1) =~= (before + fo.take(j as int)).push(
                Occurrence { path: f.filepath@, violation: f.violations@[j as int]@ },
            ));
            add_occurrence(&mut out, &f.filepath, &f.violations[j], Ghost(before + fo.take(j as int)));
            j = j + 1;
        }
        assert(fo.take(f.violations.len() as int) =~= fo);
        k = k + 1;
    }
    assert(rf.take(ranked.len() as int) =~= rf);
    out
}

/// The order in which `tallies` are listed: largest count first, ties in
/// their current order.
fn tally_order(tallies: &Vec<RuleTally>) -> (order: Vec<usize>)
    ensures
        order.len() == tallies.len(),
        ranked_tallies(tallies_model(tallies@)).len() == tallies.len(),
        forall|k: int| 0 <= k < order.len() ==> #[trigger] order@[k] < tallies.len(),
        forall|k: int|
            0 <= k < order.len() ==> #[trigger] ranked_tallies(tallies_model(tallies@))[k]
                == tallies@[order@[k] as int]@,
{
    let ghost tm = tallies_model(tallies@);
    let mut keys: Vec<usize> = Vec::new();
    let mut k: usize = 0;
    while k < tallies.len()
        invariant
            tm == tallies_model(tallies@),
            k <= tallies.len(),
            nat_keys(keys@) == tally_counts(tm).take(k as int),
        decreases tallies.len() - k,
    {
        let ghost old_keys = keys@;
        keys.push(tallies[k].count);
        assert(nat_keys(keys@) =~= nat_keys(old_keys).push(tallies@[k as int].count as nat));
        assert(tally_counts(tm).take(k + 1) =~= tally_counts(tm).take(k as int).push(
            tally_counts(tm)[k as int],
        ));
        k = k + 1;
    }
    assert(tally_counts(tm).take(tallies.len() as int) =~= tally_counts(tm));
    let order = rank_descending(&keys);
    assert forall|k: int| 0 <= k < order.len() implies #[trigger] order@[k] < tallies.len() by {
        assert(int_indices(order@)[k] == order@[k] as int);
    }
    assert forall|k: int| 0 <= k < order.len() implies #[trigger] ranked_tallies(tm)[k]
        == tallies@[order@[k] as int]@ by {
        assert(int_indices(order@)[k] == order@[k] as int);
    }
    order
}

/// Appends the line of the "Top rules" section for tally `t`.
fn push_rule_line(out: &mut String, t: &RuleTally)
    ensures
        final(out)@ == old(out)@ + rule_line(t@),
{
    let ghost start = out@;
    push_str(out, "  ");
    push_str(out, t.code.as_str());
    push_str(out, " (");
    push_count(out, t.count);
    push_str(out, "x, first at ");
    let loc = sample_location(t.path.as_str(), t.line);
    push_str(out, loc.as_str());
    push_str(out, ")\n");
    assert(out@ =~= start + rule_line(t@));
}

/// Appends the line of a file's rule breakdown for tally `t`.
fn push_file_rule_line(out: &mut String, t: &RuleTally)
    ensures
        final(out)@ == old(out)@ + file_rule_line(t@),
{
    let ghost start = out@;
    push_str(out, "    ");
    push_str(out, t.code.as_str());
    match t.line {
        Some(l) => {
            if t.count == 1 {
                push_str(out, " (1, line ");
                push_decimal(out, l);
                push_str(out, ")\n");
            } else {
                push_str(out, " (");
                push_count(out, t.count);
                push_str(out, ", first at line ");
                push_decimal(out, l);
                push_str(out, ")\n");
            }
        },
        None => {
            push_str(out, " (");
            push_count(out, t.count);
            push_str(out, ")\n");
        },
    }
    assert(out@ =~= start + file_rule_line(t@));
}

/// Appends the "Top rules" lines: the most frequent rules, at most
/// `MAX_REPORTED_RULES` of them.
fn push_top_rules(out: &mut String, tallies: &Vec<RuleTally>)
    ensures
        final(out)@ == old(out)@ + rule_lines(
            at_most(ranked_tallies(tallies_model(tallies@)), MAX_REPORTED_RULES as nat),
        ),
{
    let ghost start = out@;
    let ghost shown = at_most(ranked_tallies(tallies_model(tallies@)), MAX_REPORTED_RULES as nat);
    let order = tally_order(tallies);
    let limit = if order.len() < MAX_REPORTED_RULES {
        order.len()
    } else {
        MAX_REPORTED_RULES
    };
    assert(shown.len() == limit);
    let mut k: usize = 0;
    assert(shown.take(0) =~= Seq::<RuleModel>::empty());
    while k < limit
        invariant
            shown == at_most(ranked_tallies(tallies_model(tallies@)), MAX_REPORTED_RULES as nat),
            shown.len() == limit,
            limit <= order.len(),
            order.len() == tallies.len(),
            forall|q: int| 0 <= q < order.len() ==> #[trigger] order@[q] < tallies.len(),
            forall|q: int|
                0 <= q < order.len() ==> #[trigger] ranked_tallies(tallies_model(tallies@))[q]
                    == tallies@[order@[q] as int]@,
            k <= limit,
            out@ == start + rule_lines(shown.take(k as int)),
        decreases limit - k,
    {
        let t = &tallies[order[k]];
        assert(shown[k as int] == t@);
        assert(shown.take(k + 1).drop_last() =~= shown.take(k as int));
        push_rule_line(out, t);
        assert(out@ =~= start + rule_lines(shown.take(k + 1)));
        k = k + 1;
    }
    assert(shown.take(limit as int) =~= shown);
}

/// Appends a file's rule breakdown: its most frequent rules, at most
/// `MAX_RULES_PER_FILE` of them.
fn push_file_rules(out: &mut String, tallies: &Vec<RuleTally>)
    ensures
        final(out)@ == old(out)@ + file_rule_lines(
            at_most(ranked_tallies(tallies_model(tallies@)), MAX_RULES_PER_FILE as nat),
        ),
{
    let ghost start = out@;
    let ghost shown = at_most(ranked_tallies(tallies_model(tallies@)), MAX_RULES_PER_FILE as nat);
    let order = tally_order(tallies);
    let limit = if order.len() < MAX_RULES_PER_FILE {
        order.len()
    } else {
        MAX_RULES_PER_FILE
    };
    assert(shown.len() == limit);
    let mut k: usize = 0;
    assert(shown.take(0) =~= Seq::<RuleModel>::empty());
    while k < limit
        invariant
            shown == at_most(ranked_tallies(tallies_model(tallies@)), MAX_RULES_PER_FILE as nat),
            shown.len() == limit,
            limit <= order.len(),
            order.len() == tallies.len(),
            forall|q: int| 0 <= q < order.len() ==> #[trigger] order@[q] < tallies.len(),
            forall|q: int|
                0 <= q < order.len() ==> #[trigger] ranked_tallies(tallies_model(tallies@))[q]
                    == tallies@[order@[q] as int]@,
            k <= limit,
            out@ == start + file_rule_lines(shown.take(k as int)),
        decreases limit - k,
    {
        let t = &tallies[order[k]];
        assert(shown[k as int] == t@);
        assert(shown.take(k + 1).drop_last() =~= shown.take(k as int));
        push_file_rule_line(out, t);
        assert(out@ =~= start + file_rule_lines(shown.take(k + 1)));
        k = k + 1;
    }
    assert(shown.take(limit as int) =~= shown);
}

/// Appends the "Top files" entry of file `f`.
fn push_file_block(out: &mut String, f: &SqlfluffFile)
    ensures
        final(out)@ == old(out)@ + file_block(f@),
{
    let ghost start = out@;
    push_str(out, "  ");
    let path = compact_path(f.filepath.as_str());
    push_str(out, path.as_str());
    push_str(out, " (");
    push_count(out, f.violations.len());
    push_str(out, " violations)\n");
    let tallies = file_tallies(f);
    push_file_rules(out, &tallies);
    assert(out@ =~= start + file_block(f@));
}

/// Appends the entries of the "Top files" section: the ranked files, at most
/// `MAX_REPORTED_FILES` of them.
fn push_top_files(out: &mut String, files: &Vec<SqlfluffFile>, ranked: &Vec<usize>)
    requires
        ranked.len() == ranked_files(files_model(files@)).len(),
        forall|k: int|
            0 <= k < ranked.len() ==> #[trigger] ranked@[k] < files.len() && files_model(files@)[ranked@[k] as int]
                == ranked_files(files_model(files@))[k],
    ensures
        final(out)@ == old(out)@ + file_blocks(
            at_most(ranked_files(files_model(files@)), MAX_REPORTED_FILES as nat),
        ),
{
    let ghost start = out@;
    let ghost rf = ranked_files(files_model(files@));
    let ghost shown = at_most(rf, MAX_REPORTED_FILES as nat);
    let limit = if ranked.len() < MAX_REPORTED_FILES {
        ranked.len()
    } else {
        MAX_REPORTED_FILES
    };
    assert(shown.len() == limit);
    let mut k: usize = 0;
    assert(shown.take(0) =~= Seq::<FileModel>::empty());
    while k < limit
        invariant
            rf == ranked_files(files_model(files@)),
            shown == at_most(rf, MAX_REPORTED_FILES as nat),
            shown.len() == limit,
            limit <= ranked.len(),
            ranked.len() == rf.len(),
            forall|q: int|
                0 <= q < ranked.len() ==> #[trigger] ranked@[q] < files.len() && files_model(files@)[ranked@[q] as int]
                    == rf[q],
            k <= limit,
            out@ == start + file_blocks(shown.take(k as int)),
        decreases limit - k,
    {
        let f = &files[ranked[k]];
        assert(shown[k as int] == f@);
        assert(shown.take(k + 1).drop_last() =~= shown.take(k as int));
        push_file_block(out, f);
        assert(out@ =~= start + file_blocks(shown.take(k + 1)));
        k = k + 1;
    }
    assert(shown.take(limit as int) =~= shown);
}

/// The condensed report for the lint results `files`: a headline with the
/// totals, the most frequent rules with a sample location each, the files
/// with the most violations with their most frequent rules, and a hint when
/// some violations can be fixed automatically; or a success line when there
/// is no violation at all.
pub fn lint_summary(files: &Vec<SqlfluffFile>) -> (out: String)
    requires
        total_violations(files_model(files@)) <= usize::MAX,
    ensures
        out@ == lint_report(files_model(files@)),
{
    let ghost fm = files_model(files@);
    let (total, fixable) = count_violations(files);
    if total == 0 {
        let mut clean = String::new();
        push_str(&mut clean, "✓ SQLFluff: No violations found");
        assert(clean@ =~= clean_report());
        return clean;
    }
    let ranked = ranked_file_indices(files);
    let tallies = global_tallies(files, &ranked);
    let mut raw = String::new();
    push_str(&mut raw, "SQLFluff: ");
    push_count(&mut raw, total);
    push_str(&mut raw, " violations in ");
    push_count(&mut raw, ranked.len());
    push_str(&mut raw, " files");
    if fixable > 0 {
        push_str(&mut raw, " (");
        push_count(&mut raw, fixable);
        push_str(&mut raw, " fixable)");
    }
    push_str(&mut raw, "\n");
    assert(raw@ =~= headline(total as nat, ranked.len() as nat, fixable as nat));
    push_str(&mut raw, "═══════════════════════════════════════\n");
    push_str(&mut raw, "Top rules:\n");
    push_top_rules(&mut raw, &tallies);
    push_str(&mut raw, "\n");
    push_str(&mut raw, "Top files:\n");
    push_top_files(&mut raw, files, &ranked);
    let ghost before_tail = raw@;
    if ranked.len() > MAX_REPORTED_FILES {
        push_str(&mut raw, "\n... +");
        push_count(&mut raw, ranked.len() - MAX_REPORTED_FILES);
        push_str(&mut raw, " more files\n");
    }
    assert(raw@ =~= before_tail + more_files_note(ranked.len() as nat));
    let ghost before_hint = raw@;
    if fixable > 0 {
        push_str(&mut raw, "\n");
        push_str(&mut raw, "💡 Run `sqlfluff fix` to auto-fix ");
        push_count(&mut raw, fixable);
        push_str(&mut raw, " violations");
        push_str(&mut raw, "\n");
    }
    assert(raw@ =~= before_hint + fix_hint(fixable as nat));
    assert(raw@ =~= untrimmed_report(fm));
    trim_str(raw.as_str())
}

/// The report when the lint output could not be read as lint results: the
/// reader's error, then the raw output cut down to `max_chars` characters.
pub open spec fn parse_failure_report(error: Seq<char>, output: Seq<char>, max_chars: nat) -> Seq<char> {
    "SQLFluff lint (JSON parse failed: "@ + error + ")\n"@ + truncated(output, max_chars)
}

/// The report for the output of `sqlfluff lint --format json`, given what
/// reading that output as lint results gave: the condensed report when it
/// could be read, and otherwise the error with the raw output, truncated to
/// `passthrough_max_chars` characters.
pub fn filter_sqlfluff_lint_result(
    parsed: Result<Vec<SqlfluffFile>, String>,
    output: &str,
    passthrough_max_chars: usize,
) -> (out: String)
    requires
        parsed matches Ok(files) ==> total_violations(files_model(files@)) <= usize::MAX,
    ensures
        match parsed {
            Ok(files) => out@ == lint_report(files_model(files@)),
            Err(e) => out@ == parse_failure_report(e@, output@, passthrough_max_chars as nat),
        },
{
    match parsed {
        Ok(files) => lint_summary(&files),
        Err(e) => {
            let mut out = String::new();
            push_str(&mut out, "SQLFluff lint (JSON parse failed: ");
            push_str(&mut out, e.as_str());
            push_str(&mut out, ")\n");
            let cut = truncate(output, passthrough_max_chars);
            push_str(&mut out, cut.as_str());
            assert(out@ =~= parse_failure_report(e@, output@, passthrough_max_chars as nat));
            out
        },
    }
}

} // verus!
