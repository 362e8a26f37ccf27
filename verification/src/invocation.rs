//! How a `sqlfluff` call is passed on: which arguments sqlfluff gets, and
//! whether its output is condensed from JSON or passed through.

use vstd::prelude::*;

use crate::text::{push_str, str_equals, str_starts_with, trim, trim_str, truncate, truncated};

verus! {

broadcast use vstd::string::group_string_axioms;

/// The contents of a list of arguments.
pub open spec fn args_view(args: Seq<String>) -> Seq<Seq<char>> {
    args.map_values(|a: String| a@)
}

/// Whether `args` asks for sqlfluff's `lint` subcommand: explicitly, or by
/// giving no argument at all.
pub open spec fn is_lint_call(args: Seq<Seq<char>>) -> bool {
    args.len() == 0 || args[0] == "lint"@
}

/// Whether `a` sets sqlfluff's output format, in either spelling.
pub open spec fn is_format_flag(a: Seq<char>) -> bool {
    ||| a == "--format"@
    ||| a == "-f"@
    ||| "--format="@.is_prefix_of(a)
    ||| "-f="@.is_prefix_of(a)
}

/// Whether the caller chose an output format.
pub open spec fn sets_format(args: Seq<Seq<char>>) -> bool {
    exists|i: int| 0 <= i < args.len() && is_format_flag(#[trigger] args[i])
}

/// Whether the argument at `i` asks for JSON output.
pub open spec fn asks_json_at(args: Seq<Seq<char>>, i: int) -> bool {
    ||| args[i] == "--format=json"@
    ||| args[i] == "-f=json"@
    ||| (args[i] == "--format"@ || args[i] == "-f"@) && i + 1 < args.len() && args[i + 1] == "json"@
}

/// Whether the caller asked for JSON output.
pub open spec fn asks_json(args: Seq<Seq<char>>) -> bool {
    exists|i: int| 0 <= i < args.len() && #[trigger] asks_json_at(args, i)
}

/// Whether the output can be read as JSON lint results: the caller chose no
/// format (JSON is then requested) or chose JSON.
pub open spec fn uses_json_filter(args: Seq<Seq<char>>) -> bool {
    !sets_format(args) || asks_json(args)
}

/// The arguments sqlfluff is run with. A lint call becomes `lint`, then
/// `--format json` unless the caller chose a format, then the caller's
/// arguments without a leading `lint`; any other call is passed on as it
/// is.
pub open spec fn sqlfluff_args(args: Seq<Seq<char>>) -> Seq<Seq<char>> {
    if is_lint_call(args) {
        seq!["lint"@] + if sets_format(args) {
            Seq::empty()
        } else {
            seq!["--format"@, "json"@]
        } + args.skip(if args.len() > 0 && args[0] == "lint"@ { 1int } else { 0int })
    } else {
        args
    }
}

/// How a call of sqlfluff is carried out.
pub struct SqlfluffInvocation {
    /// The arguments sqlfluff is run with.
    pub args: Vec<String>,
    /// Whether this is a `lint` call.
    pub is_lint: bool,
    /// Whether the output can be condensed from JSON.
    pub use_json_filter: bool,
}

/// A `String` holding `s`.
fn owned(s: &str) -> (out: String)
    ensures
        out@ == s@,
{
    let mut out = String::new();
    push_str(&mut out, s);
    out
}

/// Whether `a` sets the output format.
fn format_flag(a: &str) -> (b: bool)
    ensures
        b == is_format_flag(a@),
{
    str_equals(a, "--format") || str_equals(a, "-f") || str_starts_with(a, "--format=")
        || str_starts_with(a, "-f=")
}

/// How the call `sqlfluff <args>` is carried out.
pub fn plan_invocation(args: &Vec<String>) -> (inv: SqlfluffInvocation)
    ensures
        inv.is_lint == is_lint_call(args_view(args@)),
        inv.use_json_filter == uses_json_filter(args_view(args@)),
        args_view(inv.args@) == sqlfluff_args(args_view(args@)),
{
    let ghost av = args_view(args@);
    let n = args.len();
    let leading_lint = n > 0 && str_equals(args[0].as_str(), "lint");
    let is_lint = n == 0 || leading_lint;
    let mut set_format = false;
    let mut json = false;
    let mut i: usize = 0;
    while i < n
        invariant
            n == args.len(),
            av == args_view(args@),
            i <= n,
            set_format == exists|j: int| 0 <= j < i && is_format_flag(#[trigger] av[j]),
            json == exists|j: int| 0 <= j < i && #[trigger] asks_json_at(av, j),
        decreases n - i,
    {
        let a = args[i].as_str();
        assert(av[i as int] == a@);
        if format_flag(a) {
            set_format = true;
        }
        let long_or_short = str_equals(a, "--format") || str_equals(a, "-f");
        let next_is_json = i + 1 < n && str_equals(args[i + 1].as_str(), "json");
        if i + 1 < n {
            assert(av[i + 1] == args@[i + 1]@);
        }
        let asks = str_equals(a, "--format=json") || str_equals(a, "-f=json") || (long_or_short
            && next_is_json);
        assert(asks == asks_json_at(av, i as int));
        if asks {
            json = true;
        }
        i = i + 1;
    }
    let use_json_filter = !set_format || json;
    let mut out: Vec<String> = Vec::new();
    let ghost expected = sqlfluff_args(av);
    if is_lint {
        out.push(owned("lint"));
        if !set_format {
            out.push(owned("--format"));
            out.push(owned("json"));
        }
        let ghost head = args_view(out@);
        let start: usize = if leading_lint {
            1
        } else {
            0
        };
        let mut k: usize = start;
        while k < n
            invariant
                n == args.len(),
                av == args_view(args@),
                start <= k <= n,
                args_view(out@) == head + av.subrange(start as int, k as int),
            decreases n - k,
        {
            let ghost old_out = out@;
            let a = args[k].clone();
            assert(a@ == av[k as int]);
            out.push(a);
            assert(args_view(out@) =~= args_view(old_out).push(av[k as int]));
            assert(args_view(out@) =~= head + av.subrange(start as int, k + 1));
            k = k + 1;
        }
        assert(av.subrange(start as int, n as int) =~= av.skip(start as int));
        assert(args_view(out@) =~= expected);
    } else {
        let mut k: usize = 0;
        while k < n
            invariant
                n == args.len(),
                av == args_view(args@),
                k <= n,
                args_view(out@) == av.take(k as int),
            decreases n - k,
        {
            let ghost old_out = out@;
            let a = args[k].clone();
            assert(a@ == av[k as int]);
            out.push(a);
            assert(args_view(out@) =~= args_view(old_out).push(av[k as int]));
            assert(args_view(out@) =~= av.take(k + 1));
            k = k + 1;
        }
        assert(av.take(n as int) =~= av);
    }
    SqlfluffInvocation { args: out, is_lint, use_json_filter }
}

/// Whether the output of a call is condensed from JSON: a lint call whose
/// output can be read as JSON, with something other than white space in it.
pub open spec fn applies_json_filter(is_lint: bool, use_json_filter: bool, stdout: Seq<char>) -> bool {
    is_lint && use_json_filter && trim(stdout).len() > 0
}

/// Whether the output `stdout` of the call `inv` is condensed from JSON.
pub fn wants_json_filter(inv: &SqlfluffInvocation, stdout: &str) -> (b: bool)
    ensures
        b == applies_json_filter(inv.is_lint, inv.use_json_filter, stdout@),
{
    if !inv.is_lint || !inv.use_json_filter {
        return false;
    }
    let t = trim_str(stdout);
    t.as_str().unicode_len() > 0
}

/// Output that is passed through: trimmed, then cut down to `max_chars`
/// characters.
pub fn passthrough_output(stdout: &str, max_chars: usize) -> (out: String)
    ensures
        out@ == truncated(trim(stdout@), max_chars as nat),
{
    let t = trim_str(stdout);
    truncate(t.as_str(), max_chars)
}

} // verus!
