use listlang::runner::run_program;

fn run(lines: &[&str]) -> Vec<String> {
    let v: Vec<String> = lines.iter().map(|s| s.to_string()).collect();
    run_program(&v)
}

#[test]
fn scenario_sum() {
    let out = run(&["{a: 3, {d: apple}}", ".", "SUM", "QUIT"]);
    assert_eq!(out, vec!["3".to_string()]);
}

#[test]
fn scenario_search_two_trees() {
    let out = run(&["{c: {d: a}}", "{b: {c: a}}", ".", "search a", "QUIT"]);
    assert_eq!(out, vec!["c:b,d:c".to_string()]);
}

#[test]
fn scenario_ptrs_none_present() {
    let out = run(&["{c: 30}", ".", "PTRS", "QUIT"]);
    assert_eq!(out, vec!["OK".to_string()]);
}

#[test]
fn scenario_namecheck_duplicate_top_level() {
    let out = run(&["{c: 1}", "{c: 2, b}", ".", "NAMECHECK", "QUIT"]);
    assert_eq!(out, vec!["c".to_string()]);
}

#[test]
fn scenario_missing_quit() {
    let out = run(&["{c: 30}", ".", "SUM"]);
    assert_eq!(out, vec!["ERR".to_string()]);
}

#[test]
fn scenario_empty_items_field() {
    let out = run(&["{x: }", ".", "SUM", "QUIT"]);
    assert_eq!(out, vec!["ERR".to_string()]);
}

#[test]
fn sum_with_negatives_and_nesting() {
    let out = run(&["{a: -5, {b: 3, 4}, x}", ".", "SUM", "QUIT"]);
    assert_eq!(out, vec!["2".to_string()]);
}

#[test]
fn sum_wraps_on_overflow() {
    let out = run(&["{a: 9223372036854775807, 1}", ".", "SUM", "QUIT"]);
    assert_eq!(out, vec!["-9223372036854775808".to_string()]);
}

#[test]
fn sum_lowercase_spelling() {
    let out = run(&["{a: 1}", ".", "sum", "QUIT"]);
    assert_eq!(out, vec!["1".to_string()]);
}

#[test]
fn namecheck_reports_ok_without_duplicates() {
    let out = run(&["{a: {b: 1}}", "{c: 2}", ".", "namecheck", "QUIT"]);
    assert_eq!(out, vec!["OK".to_string()]);
}

#[test]
fn namecheck_reports_each_duplicate_once_sorted() {
    let out = run(&[
        "{b: {a: 1}, {a: 2}}",
        "{b: 3}",
        ".",
        "NAMECHECK",
        "QUIT",
    ]);
    assert_eq!(out, vec!["a,b".to_string()]);
}

#[test]
fn namecheck_counts_nested_names() {
    let out = run(&["{a: {a: 1}}", ".", "NAMECHECK", "QUIT"]);
    assert_eq!(out, vec!["a".to_string()]);
}

#[test]
fn ptrs_reports_dangling_sorted_once() {
    let out = run(&["{a: @z, @b, @z}", ".", "ptrs", "QUIT"]);
    assert_eq!(out, vec!["b,z".to_string()]);
}

#[test]
fn ptrs_resolved_pointer_is_not_dangling() {
    let out = run(&["{a: @a, {b: @a}}", ".", "PTRS", "QUIT"]);
    assert_eq!(out, vec!["OK".to_string()]);
}

#[test]
fn search_absent_token_reports_nil() {
    let out = run(&["{a: 1, b}", ".", "search zz", "QUIT"]);
    assert_eq!(out, vec!["NIL".to_string()]);
}

#[test]
fn search_repeated_matches_report_repeated_paths() {
    let out = run(&["{c: 30, 30}", ".", "search 30", "QUIT"]);
    assert_eq!(out, vec!["c,c".to_string()]);
}

#[test]
fn search_path_runs_from_parent_to_root() {
    let out = run(&["{a: {b: {c: hit}}}", ".", "search hit", "QUIT"]);
    assert_eq!(out, vec!["c:b:a".to_string()]);
}

#[test]
fn search_does_not_match_pointers_or_names() {
    let out = run(&["{a: @hit, {hit: 1}}", ".", "search hit", "QUIT"]);
    assert_eq!(out, vec!["NIL".to_string()]);
}

#[test]
fn search_accepts_tab_separated_token() {
    let out = run(&["{a: 7}", ".", "search\t7", "QUIT"]);
    assert_eq!(out, vec!["a".to_string()]);
}

#[test]
fn search_rejects_bad_second_token() {
    let out = run(&["{a: 1}", ".", "search @x", "QUIT"]);
    assert_eq!(out, vec!["ERR".to_string()]);
}

#[test]
fn search_requires_search_keyword() {
    let out = run(&["{a: 1}", ".", "find a", "QUIT"]);
    assert_eq!(out, vec!["ERR".to_string()]);
}

#[test]
fn query_junk_invalidates_whole_program() {
    let out = run(&["{a: 1}", ".", "SUM", "banana", "QUIT"]);
    assert_eq!(out, vec!["ERR".to_string()]);
}

#[test]
fn missing_dot_invalidates() {
    let out = run(&["{a: 1}", "SUM", "QUIT"]);
    assert_eq!(out, vec!["ERR".to_string()]);
}

#[test]
fn too_short_input_invalidates() {
    let out = run(&["QUIT"]);
    assert_eq!(out, vec!["ERR".to_string()]);
}

#[test]
fn empty_program_is_valid_and_silent() {
    let out = run(&[".", "QUIT"]);
    assert_eq!(out, Vec::<String>::new());
}

#[test]
fn queries_run_in_submission_order() {
    let out = run(&["{a: 1}", ".", "SUM", "PTRS", "SUM", "QUIT"]);
    assert_eq!(
        out,
        vec!["1".to_string(), "OK".to_string(), "1".to_string()]
    );
}

#[test]
fn lines_are_trimmed_before_parsing() {
    let out = run(&["   {a: 1}  ", " . ", "  SUM ", "  QUIT  "]);
    assert_eq!(out, vec!["1".to_string()]);
}

#[test]
fn namecheck_and_ptrs_ignore_sibling_order() {
    let a = run(&["{a: @x, {b: 1}, {c: 2}}", "{d: 3}", ".", "NAMECHECK", "PTRS", "QUIT"]);
    let b = run(&["{d: 3}", "{a: {c: 2}, {b: 1}, @x}", ".", "NAMECHECK", "PTRS", "QUIT"]);
    assert_eq!(a, b);
}
