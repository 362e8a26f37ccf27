//! Compact display paths for dbt/SQL projects, and `path:line` sample
//! locations built from them.

use vstd::prelude::*;

use crate::text::{chars_of, decimal, has_prefix, push_char, push_decimal, string_of};

verus! {

broadcast use vstd::string::group_string_axioms;

/// The number of dbt project roots that paths are compacted against.
pub const DBT_ROOT_COUNT: usize = 6;

/// The dbt project roots, in the order in which they are tried.
pub open spec fn dbt_roots() -> Seq<Seq<char>> {
    seq!["models"@, "tests"@, "macros"@, "seeds"@, "snapshots"@, "analyses"@]
}

/// The dbt project root with index `i`.
pub fn dbt_root(i: usize) -> (root: &'static str)
    requires
        i < DBT_ROOT_COUNT,
    ensures
        root@ == dbt_roots()[i as int],
{
    if i == 0 {
        "models"
    } else if i == 1 {
        "tests"
    } else if i == 2 {
        "macros"
    } else if i == 3 {
        "seeds"
    } else if i == 4 {
        "snapshots"
    } else {
        "analyses"
    }
}

/// `p` with every backslash turned into a forward slash.
pub open spec fn with_forward_slashes(p: Seq<char>) -> Seq<char> {
    p.map_values(|c: char| if c == '\\' { '/' } else { c })
}

/// Whether `needle` occurs in `s` starting at index `i`.
pub open spec fn occurs_at(s: Seq<char>, needle: Seq<char>, i: int) -> bool {
    &&& 0 <= i
    &&& i + needle.len() <= s.len()
    &&& s.subrange(i, i + needle.len()) == needle
}

/// The greatest index below `end` at which `needle` occurs in `s`.
pub open spec fn last_occurrence_before(s: Seq<char>, needle: Seq<char>, end: int) -> Option<int>
    decreases end,
{
    if end <= 0 {
        None
    } else if occurs_at(s, needle, end - 1) {
        Some(end - 1)
    } else {
        last_occurrence_before(s, needle, end - 1)
    }
}

/// The start of the last occurrence of `needle` in `s` (`str::rfind`).
pub open spec fn rfind(s: Seq<char>, needle: Seq<char>) -> Option<int> {
    last_occurrence_before(s, needle, s.len() + 1int)
}

/// Where `last_occurrence_before` finds something, `needle` occurs there.
pub proof fn lemma_last_occurrence_occurs(s: Seq<char>, needle: Seq<char>, end: int)
    ensures
        last_occurrence_before(s, needle, end) matches Some(i) ==> occurs_at(s, needle, i) && i < end,
    decreases end,
{
    if end > 0 && !occurs_at(s, needle, end - 1) {
        lemma_last_occurrence_occurs(s, needle, end - 1);
    }
}

/// Where `rfind` finds something, `needle` occurs there.
pub proof fn lemma_rfind_occurs(s: Seq<char>, needle: Seq<char>)
    ensures
        rfind(s, needle) matches Some(i) ==> occurs_at(s, needle, i),
{
    lemma_last_occurrence_occurs(s, needle, s.len() + 1int);
}

/// `/root/` for the dbt root with index `i`.
pub open spec fn root_needle(i: int) -> Seq<char> {
    seq!['/'] + dbt_roots()[i] + seq!['/']
}

/// For the first dbt root from index `i` on whose `/root/` occurs in `p`,
/// `root/` followed by what comes after the last occurrence of `/root/`.
pub open spec fn cut_at_root(p: Seq<char>, i: int) -> Option<Seq<char>>
    decreases DBT_ROOT_COUNT - i,
{
    if i < 0 || i >= DBT_ROOT_COUNT {
        None
    } else {
        match rfind(p, root_needle(i)) {
            Some(pos) => Some(dbt_roots()[i] + seq!['/'] + p.skip(pos + root_needle(i).len())),
            None => cut_at_root(p, i + 1),
        }
    }
}

/// Whether `p` already starts with one of the dbt roots followed by `/`.
pub open spec fn starts_at_root(p: Seq<char>) -> bool {
    exists|i: int| 0 <= i < DBT_ROOT_COUNT && (#[trigger] dbt_roots()[i]).push('/').is_prefix_of(p)
}

/// What follows the last `/` of `p`, or `p` itself when it has none.
pub open spec fn file_name(p: Seq<char>) -> Seq<char> {
    match rfind(p, seq!['/']) {
        Some(pos) => p.skip(pos + 1),
        None => p,
    }
}

/// The compact form of a path: with forward slashes, cut down to its dbt
/// root when one occurs as a directory (the first root in list order, at its
/// last occurrence); kept as it is when it already starts at a dbt root;
/// otherwise only its file name.
pub open spec fn compacted(path: Seq<char>) -> Seq<char> {
    let p = with_forward_slashes(path);
    match cut_at_root(p, 0) {
        Some(cut) => cut,
        None => if starts_at_root(p) {
            p
        } else {
            file_name(p)
        },
    }
}

/// `compacted(path)`, followed by `:line` when a line is known.
pub open spec fn located(path: Seq<char>, line: Option<u64>) -> Seq<char> {
    match line {
        Some(l) => compacted(path) + seq![':'] + decimal(l as nat),
        None => compacted(path),
    }
}

/// Whether `needle` occurs in `s` at index `k`.
fn occurs_at_index(s: &Vec<char>, needle: &Vec<char>, k: usize) -> (b: bool)
    ensures
        b == occurs_at(s@, needle@, k as int),
{
    if needle.len() > s.len() || k > s.len() - needle.len() {
        return false;
    }
    let mut j: usize = 0;
    while j < needle.len()
        invariant
            k + needle.len() <= s.len(),
            j <= needle.len(),
            forall|t: int| 0 <= t < j ==> s@[k + t] == needle@[t],
        decreases needle.len() - j,
    {
        if s[k + j] != needle[j] {
            assert(s@.subrange(k as int, k + needle.len())[j as int] == s@[k + j]);
            return false;
        }
        j = j + 1;
    }
    assert(s@.subrange(k as int, k + needle.len()) =~= needle@);
    true
}

/// The start of the last occurrence of `needle` in `s`.
fn rfind_chars(s: &Vec<char>, needle: &Vec<char>) -> (r: Option<usize>)
    ensures
        r matches Some(i) ==> rfind(s@, needle@) == Some(i as int) && occurs_at(
            s@,
            needle@,
            i as int,
        ),
        r is None ==> rfind(s@, needle@) is None,
{
    let mut k: usize = s.len();
    loop
        invariant
            k <= s.len(),
            rfind(s@, needle@) == last_occurrence_before(s@, needle@, k + 1),
        decreases k,
    {
        if occurs_at_index(s, needle, k) {
            return Some(k);
        }
        if k == 0 {
            assert(last_occurrence_before(s@, needle@, 0) is None);
            return None;
        }
        k = k - 1;
    }
}

/// Appends `cs[from..]` to `out`.
fn push_tail(out: &mut String, cs: &Vec<char>, from: usize)
    requires
        from <= cs.len(),
    ensures
        final(out)@ == old(out)@ + cs@.skip(from as int),
{
    let ghost start = out@;
    let mut i: usize = from;
    while i < cs.len()
        invariant
            from <= i <= cs.len(),
            out@ == start + cs@.subrange(from as int, i as int),
        decreases cs.len() - i,
    {
        assert(cs@.subrange(from as int, i + 1) == cs@.subrange(from as int, i as int).push(
            cs@[i as int],
        ));
        push_char(out, cs[i]);
        i = i + 1;
    }
    assert(cs@.subrange(from as int, cs.len() as int) == cs@.skip(from as int));
}

/// `path` with backslashes turned into forward slashes, as characters.
fn forward_slashes(path: &str) -> (p: Vec<char>)
    ensures
        p@ == with_forward_slashes(path@),
{
    let cs = chars_of(path);
    let mut p: Vec<char> = Vec::new();
    let mut i: usize = 0;
    while i < cs.len()
        invariant
            i <= cs.len(),
            p@ == with_forward_slashes(cs@.take(i as int)),
        decreases cs.len() - i,
    {
        let c = cs[i];
        if c == '\\' {
            p.push('/');
        } else {
            p.push(c);
        }
        assert(with_forward_slashes(cs@.take(i + 1)) =~= with_forward_slashes(cs@.take(i as int)).push(
            if c == '\\' { '/' } else { c },
        ));
        i = i + 1;
    }
    assert(cs@.take(cs.len() as int) == cs@);
    p
}

/// The compact display form of a file path in a dbt/SQL project.
///
/// With backslashes turned into slashes, a path in which `/root/` occurs
/// for a dbt root is cut down to `root/` and what follows the last such
/// occurrence, trying the roots in list order; failing that, a path that
/// starts at a dbt root is kept; any other path is shown by its file name.
pub fn compact_path(path: &str) -> (out: String)
    ensures
        out@ == compacted(path@),
{
    let p = forward_slashes(path);
    let mut i: usize = 0;
    while i < DBT_ROOT_COUNT
        invariant
            p@ == with_forward_slashes(path@),
            i <= DBT_ROOT_COUNT,
            cut_at_root(p@, 0) == cut_at_root(p@, i as int),
        decreases DBT_ROOT_COUNT - i,
    {
        let root = chars_of(dbt_root(i));
        let mut needle: Vec<char> = Vec::new();
        needle.push('/');
        let mut k: usize = 0;
        while k < root.len()
            invariant
                k <= root.len(),
                needle@ == seq!['/'] + root@.take(k as int),
            decreases root.len() - k,
        {
            assert(root@.take(k + 1) == root@.take(k as int).push(root@[k as int]));
            needle.push(root[k]);
            k = k + 1;
        }
        needle.push('/');
        assert(root@.take(root.len() as int) == root@);
        assert(needle@ == root_needle(i as int));
        match rfind_chars(&p, &needle) {
            Some(pos) => {
                assert(occurs_at(p@, needle@, pos as int));
                assert(pos + needle@.len() <= p@.len());
                assert(needle@.len() == needle.len());
                assert(p@.len() == p.len());
                let mut out = string_of(&root);
                push_char(&mut out, '/');
                push_tail(&mut out, &p, pos + needle.len());
                return out;
            },
            None => {},
        }
        i = i + 1;
    }
    assert(cut_at_root(p@, DBT_ROOT_COUNT as int) is None);
    let mut i: usize = 0;
    while i < DBT_ROOT_COUNT
        invariant
            p@ == with_forward_slashes(path@),
            cut_at_root(p@, 0) is None,
            i <= DBT_ROOT_COUNT,
            forall|j: int|
                0 <= j < i ==> !(#[trigger] dbt_roots()[j]).push('/').is_prefix_of(p@),
        decreases DBT_ROOT_COUNT - i,
    {
        let mut prefix = chars_of(dbt_root(i));
        prefix.push('/');
        if has_prefix(&p, &prefix) {
            assert(dbt_roots()[i as int].push('/').is_prefix_of(p@));
            assert(starts_at_root(p@));
            return string_of(&p);
        }
        i = i + 1;
    }
    let mut slash: Vec<char> = Vec::new();
    slash.push('/');
    assert(slash@ == seq!['/']);
    match rfind_chars(&p, &slash) {
        Some(pos) => {
            assert(occurs_at(p@, slash@, pos as int));
            assert(pos + slash@.len() <= p@.len());
            assert(p@.len() == p.len());
            let mut out = String::new();
            push_tail(&mut out, &p, pos + 1);
            out
        },
        None => string_of(&p),
    }
}

/// A `path:line` sample location: the compact path, followed by `:` and the
/// line number when one is known.
pub fn sample_location(path: &str, line: Option<u64>) -> (out: String)
    ensures
        out@ == located(path@, line),
{
    let mut out = compact_path(path);
    match line {
        Some(l) => {
            push_char(&mut out, ':');
            push_decimal(&mut out, l);
        },
        None => {},
    }
    out
}

} // verus!
