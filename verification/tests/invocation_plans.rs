use rtk_sqlfluff::invocation::{passthrough_output, plan_invocation, wants_json_filter};
use rtk_sqlfluff::ranking::rank_descending;
use rtk_sqlfluff::text::{truncate, trim_str};

fn strings(args: &[&str]) -> Vec<String> {
    args.iter().map(|a| a.to_string()).collect()
}

#[test]
fn bare_call_becomes_json_lint() {
    let plan = plan_invocation(&vec![]);
    assert!(plan.is_lint && plan.use_json_filter);
    assert_eq!(plan.args, strings(&["lint", "--format", "json"]));
}

#[test]
fn explicit_lint_is_not_repeated() {
    let plan = plan_invocation(&strings(&["lint", "models/", "--dialect", "postgres"]));
    assert!(plan.is_lint && plan.use_json_filter);
    assert_eq!(
        plan.args,
        strings(&["lint", "--format", "json", "models/", "--dialect", "postgres"])
    );
}

#[test]
fn user_format_is_never_doubled() {
    let plan = plan_invocation(&strings(&["lint", "--format", "human"]));
    assert_eq!(plan.args, strings(&["lint", "--format", "human"]));
    assert!(!plan.use_json_filter);
    let plan = plan_invocation(&strings(&["lint", "-f=yaml"]));
    assert_eq!(plan.args, strings(&["lint", "-f=yaml"]));
    assert!(!plan.use_json_filter);
}

#[test]
fn user_json_format_keeps_the_filter() {
    for args in [&["lint", "-f", "json"][..], &["lint", "--format=json"][..], &["lint", "--format", "json"][..]] {
        let plan = plan_invocation(&strings(args));
        assert!(plan.use_json_filter, "{:?}", args);
        assert_eq!(plan.args, strings(args));
    }
    // A trailing `--format` with nothing after it is no JSON request.
    let plan = plan_invocation(&strings(&["lint", "--format"]));
    assert!(!plan.use_json_filter);
}

#[test]
fn other_subcommands_pass_through() {
    let plan = plan_invocation(&strings(&["fix", "models/"]));
    assert!(!plan.is_lint);
    assert_eq!(plan.args, strings(&["fix", "models/"]));
    assert!(!wants_json_filter(&plan, "[]"));
    let plan = plan_invocation(&strings(&["modles/x.sql"]));
    assert!(!plan.is_lint);
    assert_eq!(plan.args, strings(&["modles/x.sql"]));
}

#[test]
fn json_filter_needs_non_blank_output() {
    let plan = plan_invocation(&vec![]);
    assert!(wants_json_filter(&plan, " [] \n"));
    assert!(!wants_json_filter(&plan, " \n\t "));
    assert!(!wants_json_filter(&plan, ""));
}

#[test]
fn passthrough_trims_and_truncates() {
    assert_eq!(passthrough_output("  hello \n", 100), "hello");
    assert_eq!(passthrough_output("\u{3000}abcdefgh\u{85}", 5), "ab...");
    assert_eq!(passthrough_output("abc", 1), "...");
}

#[test]
fn trim_and_truncate_follow_std() {
    for s in ["", "  ", "\u{2003}x y\u{200A}", "\u{1680}z\u{a0}", "a\u{200b}"] {
        assert_eq!(trim_str(s), s.trim());
    }
    assert_eq!(truncate("héllo wörld", 8), "héllo...");
    assert_eq!(truncate("héllo", 5), "héllo");
    assert_eq!(truncate("héllo", 0), "...");
}

#[test]
fn ranking_is_a_stable_descending_sort() {
    let keys = vec![1usize, 3, 2, 3, 0, 2];
    assert_eq!(rank_descending(&keys), vec![1, 3, 2, 5, 0, 4]);
    assert_eq!(rank_descending(&vec![]), Vec::<usize>::new());
    assert_eq!(rank_descending(&vec![5, 5, 5]), vec![0, 1, 2]);
}
