use listlang::chars::trim_str;
use listlang::queries::namecheck;
use listlang::queries::pointercheck;
use listlang::queries::recursive_namecheck;
use listlang::queries::recursive_ptrcheck;
use listlang::queries::recursive_search;
use listlang::queries::recursive_sum;
use listlang::queries::search;
use listlang::strutil::dedup_strings;
use listlang::strutil::join_strings;
use listlang::strutil::lex_le_exec;
use listlang::strutil::sort_strings;
use listlang::validate::check_query;
use listlang::validate::validate_input;
use listlang::validate::Query;

fn forest(lines: &[&str]) -> Vec<listlang::node::Node> {
    let mut v: Vec<String> = lines.iter().map(|s| s.to_string()).collect();
    v.push(".".to_string());
    v.push("QUIT".to_string());
    let (data, _, valid) = validate_input(&v);
    assert!(valid);
    data
}

#[test]
fn recursive_sum_adds_all_depths() {
    let data = forest(&["{a: 1, {b: 2, {c: 3}}}", "{d: 4}"]);
    assert_eq!(recursive_sum(&data), 10);
}

#[test]
fn recursive_sum_ignores_strings_and_pointers() {
    let data = forest(&["{a: 1, x, @a, -1}"]);
    assert_eq!(recursive_sum(&data), 0);
}

#[test]
fn recursive_namecheck_collects_preorder() {
    let data = forest(&["{a: {b: 1}, {c: 2}}", "{d: 3}"]);
    assert_eq!(recursive_namecheck(&data), vec!["a", "b", "c", "d"]);
}

#[test]
fn recursive_ptrcheck_collects_in_order() {
    let data = forest(&["{a: @x, {b: @y}, @x}"]);
    assert_eq!(recursive_ptrcheck(&data), vec!["x", "y", "x"]);
}

#[test]
fn recursive_search_returns_unsorted_paths() {
    let data = forest(&["{c: {d: a}}", "{b: {c: a}}"]);
    let found = recursive_search(&data, "a");
    assert_eq!(found, vec!["d:c", "c:b"]);
}

#[test]
fn namecheck_line_output() {
    let data = forest(&["{b: 1}", "{a: 2}", "{b: 3}", "{a: 4}"]);
    assert_eq!(namecheck(&data), "a,b");
}

#[test]
fn pointercheck_line_output() {
    let data = forest(&["{a: @c, @b}", "{b: 1}"]);
    assert_eq!(pointercheck(&data), "c");
}

#[test]
fn search_line_output_sorted() {
    let data = forest(&["{z: 9}", "{a: 9}"]);
    assert_eq!(search(&data, "9"), "a,z");
}

#[test]
fn check_query_normalizes() {
    assert!(matches!(check_query("SUM"), Some(Query::Sum)));
    assert!(matches!(check_query("ptrs"), Some(Query::Ptrs)));
    assert!(matches!(check_query("namecheck"), Some(Query::NameCheck)));
    match check_query("SEARCH  abc") {
        Some(Query::Search(tok)) => assert_eq!(tok, "abc"),
        _ => panic!("expected a search query"),
    }
    assert!(check_query("Sum").is_none());
    assert!(check_query("search").is_none());
    assert!(check_query("search a b").is_none());
    assert!(check_query("search @a").is_none());
}

#[test]
fn validate_flags_invalid_inputs() {
    let bad: Vec<String> = vec!["{a: 1}".to_string(), "QUIT".to_string()];
    let (_, _, valid) = validate_input(&bad);
    assert!(!valid);
    let short: Vec<String> = vec!["QUIT".to_string()];
    assert!(!validate_input(&short).2);
}

#[test]
fn trim_removes_surrounding_whitespace() {
    assert_eq!(trim_str("  a b \t"), "a b");
    assert_eq!(trim_str("\t\r\n "), "");
    assert_eq!(trim_str("abc"), "abc");
}

#[test]
fn lex_order_is_by_code_point() {
    assert!(lex_le_exec("a", "b"));
    assert!(lex_le_exec("a", "a"));
    assert!(!lex_le_exec("b", "a"));
    assert!(lex_le_exec("a", "ab"));
    assert!(!lex_le_exec("ab", "a"));
    assert!(lex_le_exec("B", "a"));
    assert!(lex_le_exec("a:b", "ab"));
}

#[test]
fn sort_dedup_join_pipeline() {
    let v: Vec<String> = ["b", "a", "c", "a"].iter().map(|s| s.to_string()).collect();
    let sorted = sort_strings(&v);
    assert_eq!(sorted, vec!["a", "a", "b", "c"]);
    let deduped = dedup_strings(&sorted);
    assert_eq!(deduped, vec!["a", "b", "c"]);
    assert_eq!(join_strings(&deduped), "a,b,c");
    assert_eq!(join_strings(&Vec::new()), "");
}
