//! Lint results as the library sees them, and the grouping of violations by
//! rule: how often each rule fired and the first place it fired.

use vstd::prelude::*;

verus! {

/// One violation reported by `sqlfluff lint`.
pub struct SqlfluffViolation {
    /// The rule code, such as `LT09`.
    pub code: String,
    /// How many automatic fixes sqlfluff proposes for it.
    pub fix_count: usize,
    /// The line it starts on, when sqlfluff reports one.
    pub start_line_no: Option<u64>,
}

/// The violations that `sqlfluff lint` reports for one file.
pub struct SqlfluffFile {
    pub filepath: String,
    pub violations: Vec<SqlfluffViolation>,
}

/// What a violation is, mathematically.
pub struct ViolationModel {
    pub code: Seq<char>,
    pub fix_count: nat,
    pub line: Option<u64>,
}

/// What a file's lint result is, mathematically.
pub struct FileModel {
    pub path: Seq<char>,
    pub violations: Seq<ViolationModel>,
}

/// A violation together with the path of the file it was reported in.
pub struct Occurrence {
    pub path: Seq<char>,
    pub violation: ViolationModel,
}

/// A rule's tally: the rule code, how many violations of it there are, and
/// a sample location (path and, when known, line).
pub struct RuleModel {
    pub code: Seq<char>,
    pub count: nat,
    pub path: Seq<char>,
    pub line: Option<u64>,
}

impl View for SqlfluffViolation {
    type V = ViolationModel;

    open spec fn view(&self) -> ViolationModel {
        ViolationModel { code: self.code@, fix_count: self.fix_count as nat, line: self.start_line_no }
    }
}

impl View for SqlfluffFile {
    type V = FileModel;

    open spec fn view(&self) -> FileModel {
        FileModel {
            path: self.filepath@,
            violations: self.violations@.map_values(|v: SqlfluffViolation| v@),
        }
    }
}

/// The models of a list of files.
pub open spec fn files_model(files: Seq<SqlfluffFile>) -> Seq<FileModel> {
    files.map_values(|f: SqlfluffFile| f@)
}

/// The violations of `f`, each paired with `f`'s path.
pub open spec fn file_occurrences(f: FileModel) -> Seq<Occurrence> {
    f.violations.map_values(|v: ViolationModel| Occurrence { path: f.path, violation: v })
}

/// The distinct rule codes of `occ`, in the order of their first appearance.
pub open spec fn codes(occ: Seq<Occurrence>) -> Seq<Seq<char>>
    decreases occ.len(),
{
    if occ.len() == 0 {
        Seq::empty()
    } else {
        let before = codes(occ.drop_last());
        if before.contains(occ.last().violation.code) {
            before
        } else {
            before.push(occ.last().violation.code)
        }
    }
}

/// How many occurrences in `occ` are of rule `code`.
pub open spec fn code_count(occ: Seq<Occurrence>, code: Seq<char>) -> nat
    decreases occ.len(),
{
    if occ.len() == 0 {
        0
    } else {
        code_count(occ.drop_last(), code) + if occ.last().violation.code == code {
            1nat
        } else {
            0nat
        }
    }
}

/// The first occurrence of rule `code` in `occ`.
pub open spec fn first_of(occ: Seq<Occurrence>, code: Seq<char>) -> Option<Occurrence>
    decreases occ.len(),
{
    if occ.len() == 0 {
        None
    } else {
        match first_of(occ.drop_last(), code) {
            Some(o) => Some(o),
            None => if occ.last().violation.code == code {
                Some(occ.last())
            } else {
                None
            },
        }
    }
}

/// The first occurrence of rule `code` in `occ` that has a line number.
pub open spec fn first_with_line(occ: Seq<Occurrence>, code: Seq<char>) -> Option<Occurrence>
    decreases occ.len(),
{
    if occ.len() == 0 {
        None
    } else {
        match first_with_line(occ.drop_last(), code) {
            Some(o) => Some(o),
            None => if occ.last().violation.code == code && occ.last().violation.line is Some {
                Some(occ.last())
            } else {
                None
            },
        }
    }
}

/// The tally of rule `code` over `occ`: its count, and as sample location
/// the first occurrence that has a line number, or, when none has, the path
/// of the first occurrence.
pub open spec fn rule_of(occ: Seq<Occurrence>, code: Seq<char>) -> RuleModel {
    match first_with_line(occ, code) {
        Some(o) => RuleModel {
            code,
            count: code_count(occ, code),
            path: o.path,
            line: o.violation.line,
        },
        None => RuleModel {
            code,
            count: code_count(occ, code),
            path: first_of(occ, code).unwrap().path,
            line: None,
        },
    }
}

/// The tally of every rule of `occ`, in the order of first appearance.
pub open spec fn rule_tallies(occ: Seq<Occurrence>) -> Seq<RuleModel> {
    codes(occ).map_values(|c: Seq<char>| rule_of(occ, c))
}

/// The counts of a list of tallies.
pub open spec fn tally_counts(rules: Seq<RuleModel>) -> Seq<nat> {
    rules.map_values(|r: RuleModel| r.count)
}

/// The tally of rule `r` after one more occurrence `o` of it.
pub open spec fn bumped(r: RuleModel, o: Occurrence) -> RuleModel {
    if r.line is None && o.violation.line is Some {
        RuleModel { code: r.code, count: r.count + 1, path: o.path, line: o.violation.line }
    } else {
        RuleModel { code: r.code, count: r.count + 1, path: r.path, line: r.line }
    }
}

/// The tally of a rule that has fired once, at `o`.
pub open spec fn fresh(o: Occurrence) -> RuleModel {
    RuleModel { code: o.violation.code, count: 1, path: o.path, line: o.violation.line }
}

/// Facts that tie the codes, counts and first occurrences together.
pub(crate) proof fn lemma_codes_facts(occ: Seq<Occurrence>, code: Seq<char>)
    ensures
        codes(occ).contains(code) <==> first_of(occ, code) is Some,
        first_of(occ, code) is Some <==> code_count(occ, code) > 0,
        code_count(occ, code) <= occ.len(),
        first_with_line(occ, code) is Some ==> first_of(occ, code) is Some,
        first_with_line(occ, code) matches Some(o) ==> o.violation.line is Some,
        codes(occ).no_duplicates(),
    decreases occ.len(),
{
    if occ.len() > 0 {
        lemma_codes_facts(occ.drop_last(), code);
        lemma_codes_facts(occ.drop_last(), occ.last().violation.code);
        let before = codes(occ.drop_last());
        let x = occ.last().violation.code;
        if !before.contains(x) {
            let after = before.push(x);
            assert(after[before.len() as int] == x);
            if before.contains(code) {
                let i = choose|i: int| 0 <= i < before.len() && before[i] == code;
                assert(after[i] == code);
            }
            if after.contains(code) {
                let i = choose|i: int| 0 <= i < after.len() && after[i] == code;
                if i < before.len() {
                    assert(before[i] == code);
                }
            }
            assert forall|i: int, j: int|
                0 <= i < j < before.len() + 1 implies after[i] != after[j] by {
                if j == before.len() {
                    assert(before.contains(before[i]));
                }
            }
        }
    }
}

/// One more occurrence of a rule already tallied bumps that rule's tally in
/// place.
pub proof fn lemma_tallies_bump(occ: Seq<Occurrence>, o: Occurrence, k: int)
    requires
        0 <= k < codes(occ).len(),
        codes(occ)[k] == o.violation.code,
    ensures
        rule_tallies(occ.push(o)) == rule_tallies(occ).update(k, bumped(rule_tallies(occ)[k], o)),
{
    let s = occ.push(o);
    assert(s.drop_last() == occ);
    let c = o.violation.code;
    lemma_codes_facts(occ, c);
    assert(codes(occ).contains(c));
    let before = rule_tallies(occ);
    let after = rule_tallies(s);
    assert forall|i: int| 0 <= i < codes(occ).len() implies #[trigger] after[i] == if i == k {
        bumped(before[i], o)
    } else {
        before[i]
    } by {
        let d = codes(occ)[i];
        lemma_codes_facts(occ, d);
        assert(codes(occ).contains(d));
        if i != k {
            assert(d != c);
        }
    }
    assert(after =~= before.update(k, bumped(before[k], o)));
}

/// One occurrence of a rule not tallied yet appends a fresh tally.
pub proof fn lemma_tallies_fresh(occ: Seq<Occurrence>, o: Occurrence)
    requires
        !codes(occ).contains(o.violation.code),
    ensures
        rule_tallies(occ.push(o)) == rule_tallies(occ).push(fresh(o)),
{
    let s = occ.push(o);
    assert(s.drop_last() == occ);
    let c = o.violation.code;
    lemma_codes_facts(occ, c);
    let before = rule_tallies(occ);
    let after = rule_tallies(s);
    assert(codes(s) == codes(occ).push(c));
    assert forall|i: int| 0 <= i < codes(occ).len() implies #[trigger] after[i] == before[i] by {
        let d = codes(occ)[i];
        lemma_codes_facts(occ, d);
        assert(codes(occ).contains(d));
    }
    assert(after =~= before.push(fresh(o)));
}

/// Every count in a tally is at most the number of occurrences.
pub proof fn lemma_tally_counts_bounded(occ: Seq<Occurrence>)
    ensures
        forall|i: int| 0 <= i < rule_tallies(occ).len() ==> #[trigger] rule_tallies(occ)[i].count <= occ.len(),
{
    assert forall|i: int| 0 <= i < rule_tallies(occ).len() implies #[trigger] rule_tallies(occ)[i].count <= occ.len() by {
        lemma_codes_facts(occ, codes(occ)[i]);
    }
}

/// A rule's tally, as the library keeps it while grouping.
pub struct RuleTally {
    pub code: String,
    pub count: usize,
    pub path: String,
    pub line: Option<u64>,
}

impl View for RuleTally {
    type V = RuleModel;

    open spec fn view(&self) -> RuleModel {
        RuleModel { code: self.code@, count: self.count as nat, path: self.path@, line: self.line }
    }
}

/// The models of a list of tallies.
pub open spec fn tallies_model(ts: Seq<RuleTally>) -> Seq<RuleModel> {
    ts.map_values(|t: RuleTally| t@)
}

/// Adds the occurrence of `v` in the file at `path` to the tallies of the
/// occurrences `occ` seen so far.
pub(crate) fn add_occurrence(
    tallies: &mut Vec<RuleTally>,
    path: &String,
    v: &SqlfluffViolation,
    Ghost(occ): Ghost<Seq<Occurrence>>,
)
    requires
        tallies_model(old(tallies)@) == rule_tallies(occ),
        occ.len() < usize::MAX,
    ensures
        tallies_model(final(tallies)@) == rule_tallies(
            occ.push(Occurrence { path: path@, violation: v@ }),
        ),
{
    let ghost o = Occurrence { path: path@, violation: v@ };
    proof {
        lemma_tally_counts_bounded(occ);
    }
    let n = tallies.len();
    let mut k: usize = 0;
    while k < n
        invariant
            n == tallies.len(),
            tallies_model(tallies@) == rule_tallies(occ),
            occ.len() < usize::MAX,
            o == (Occurrence { path: path@, violation: v@ }),
            k <= n,
            forall|q: int| 0 <= q < k ==> tallies@[q].code@ != v.code@,
        decreases n - k,
    {
        if tallies[k].code == v.code {
            let old_t = &tallies[k];
            assert(tallies_model(tallies@)[k as int] == rule_tallies(occ)[k as int]);
            proof {
                lemma_tally_counts_bounded(occ);
            }
            assert(old_t.count <= occ.len());
            let moved = old_t.line.is_none() && v.start_line_no.is_some();
            let t = RuleTally {
                code: old_t.code.clone(),
                count: old_t.count + 1,
                path: if moved {
                    path.clone()
                } else {
                    old_t.path.clone()
                },
                line: if moved {
                    v.start_line_no
                } else {
                    old_t.line
                },
            };
            proof {
                assert(rule_tallies(occ)[k as int] == rule_of(occ, codes(occ)[k as int]));
                assert(codes(occ)[k as int] == old_t.code@);
                lemma_tallies_bump(occ, o, k as int);
                assert(t@ == bumped(old_t@, o));
            }
            let ghost before = tallies@;
            tallies.set(k, t);
            assert(tallies_model(tallies@) =~= tallies_model(before).update(k as int, t@));
            return;
        }
        k = k + 1;
    }
    proof {
        assert forall|i: int| 0 <= i < codes(occ).len() implies codes(occ)[i] != o.violation.code by {
            assert(tallies_model(tallies@)[i] == rule_tallies(occ)[i]);
        }
        lemma_tallies_fresh(occ, o);
    }
    let t = RuleTally { code: v.code.clone(), count: 1, path: path.clone(), line: v.start_line_no };
    let ghost before = tallies@;
    tallies.push(t);
    assert(tallies_model(tallies@) =~= tallies_model(before).push(fresh(o)));
}

/// The tallies of the rules that fired in file `f`, in order of first
/// appearance.
pub fn file_tallies(f: &SqlfluffFile) -> (out: Vec<RuleTally>)
    ensures
        tallies_model(out@) == rule_tallies(file_occurrences(f@)),
{
    let ghost all = file_occurrences(f@);
    let mut out: Vec<RuleTally> = Vec::new();
    let n = f.violations.len();
    let mut j: usize = 0;
    assert(all.take(0) =~= Seq::<Occurrence>::empty());
    assert(tallies_model(out@) =~= Seq::<RuleModel>::empty());
    while j < n
        invariant
            n == f.violations.len(),
            all == file_occurrences(f@),
            j <= n,
            tallies_model(out@) == rule_tallies(all.take(j as int)),
        decreases n - j,
    {
        assert(all.take(j + 1) =~= all.take(j as int).push(
            Occurrence { path: f.filepath@, violation: f.violations@[j as int]@ },
        ));
        add_occurrence(&mut out, &f.filepath, &f.violations[j], Ghost(all.take(j as int)));
        j = j + 1;
    }
    assert(all.take(n as int) =~= all);
    out
}

} // verus!
