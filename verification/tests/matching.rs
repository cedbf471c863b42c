use rexpr::compile;

#[test]
fn contains_match_valid_test() {
    let re = "abce*k[]+";
    let src = "ab[]keftabck[]]]";
    let regex = compile(re).unwrap();
    let is_match = regex.contain_match(src);
    assert!(is_match);
}

#[test]
fn contains_match_invalid_test() {
    let re = "ab*a[]+";
    let regex = compile(re).unwrap();
    let is_match = regex.contain_match("abc[]]]]");
    assert!(!is_match);
}

#[test]
fn replace_valid_test() {
    let re = "abce*a[]+";
    let src = "ab[]keftabca[]]]asfasdf";
    let tgt = "hello";
    let regex = compile(re).unwrap();
    let result = regex.replace(src, tgt);
    assert_eq!(Some(String::from("ab[]kefthelloasfasdf")), result);
}

#[test]
fn replace_invalid_test() {
    let re = "abce*a[]+";
    let src = "eftabc[]]]asfasdf";
    let tgt = "hello";
    let regex = compile(re).unwrap();
    let result = regex.replace(src, tgt);
    assert_eq!(None, result);
}

#[test]
fn greedy_star_counts_all_repetitions() {
    let regex = compile("a*b").unwrap();
    assert_eq!(Some((0, 4)), regex.run("aaab"));
    assert_eq!(Some((0, 1)), regex.run("b"));
}

#[test]
fn greedy_plus_needs_one_repetition() {
    let regex = compile("a+b").unwrap();
    assert_eq!(Some((0, 4)), regex.run("aaab"));
    assert_eq!(None, regex.run("b"));
}

#[test]
fn substring_search_not_whole_text() {
    let regex = compile("bc").unwrap();
    assert_eq!(Some((1, 2)), regex.run("abcd"));
    assert!(regex.contain_match("abcd"));
}

#[test]
fn bounded_question_mark_caps_at_one() {
    let regex = compile("a?b").unwrap();
    assert_eq!(Some((1, 2)), regex.run("aab"));
    assert_eq!(Some((0, 1)), regex.run("b"));
    assert_eq!(Some((0, 2)), regex.run("ab"));
}

#[test]
fn replace_splices_first_match() {
    let regex = compile("abce*a[]+").unwrap();
    let result = regex.replace("eftabca[]]]asfasdf", "hello");
    assert_eq!(Some(String::from("efthelloasfasdf")), result);
}

#[test]
fn replace_without_match_is_absent() {
    let regex = compile("abce*a[]+").unwrap();
    let result = regex.replace("eftabc[]]]asfasdf", "hello");
    assert_eq!(None, result);
}

#[test]
fn contain_match_agrees_with_run() {
    let cases = vec![
        ("a*b", "aaab"),
        ("a*b", "ccc"),
        ("bc", "abcd"),
        ("ab*a[]+", "abc[]]]]"),
        ("", ""),
        (".", ""),
    ];
    for (re, src) in cases {
        let regex = compile(re).unwrap();
        assert_eq!(regex.run(src).is_some(), regex.contain_match(src));
    }
}

#[test]
fn empty_pattern_matches_empty_substring() {
    let regex = compile("").unwrap();
    assert_eq!(Some((0, 0)), regex.run(""));
    assert_eq!(Some((0, 0)), regex.run("xyz"));
    assert_eq!(Some(String::from("ins")), regex.replace("", "ins"));
}

#[test]
fn empty_text_fails_consuming_patterns() {
    let regex = compile("a").unwrap();
    assert_eq!(None, regex.run(""));
    let regex = compile(".").unwrap();
    assert_eq!(None, regex.run(""));
}

#[test]
fn wildcard_matches_any_codepoint() {
    let regex = compile(".x").unwrap();
    assert_eq!(Some((1, 2)), regex.run("zaxb"));
    let regex = compile(".*").unwrap();
    assert_eq!(Some((0, 2)), regex.run("ab"));
}

#[test]
fn zero_length_quantifier_resumes_at_same_codepoint() {
    let regex = compile("abce*a[]+").unwrap();
    assert_eq!(Some((3, 8)), regex.run("eftabca[]]]asfasdf"));
}

#[test]
fn match_at_end_of_text_is_found() {
    let regex = compile("cd").unwrap();
    assert_eq!(Some((2, 2)), regex.run("abcd"));
}

#[test]
fn quantifier_cap_leaves_rest_unconsumed() {
    let regex = compile("a?").unwrap();
    assert_eq!(Some((0, 1)), regex.run("aaa"));
}

#[test]
fn zero_length_match_at_first_anchor() {
    let regex = compile("a*").unwrap();
    assert_eq!(Some((0, 0)), regex.run("bbb"));
    let regex = compile("a?").unwrap();
    assert_eq!(Some((0, 0)), regex.run("b"));
}

#[test]
fn multibyte_codepoints_are_counted_as_one() {
    let regex = compile("\u{e9}.").unwrap();
    assert_eq!(Some((1, 2)), regex.run("a\u{e9}b"));
    let result = regex.replace("a\u{e9}bc", "X");
    assert_eq!(Some(String::from("aXc")), result);
}
