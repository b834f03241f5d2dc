use pazi::matcher::{
    CaseInsensitiveMatcher, ExactMatcher, Matcher, PathComponentMatcher, SubstringMatcher,
};

fn assert_match_in_order(match_results: Vec<Option<u64>>) {
    for i in 0..(match_results.len() - 1) {
        match (match_results[i], match_results[i + 1]) {
            (Some(lhs), Some(rhs)) => {
                assert!(rhs > lhs);
            }
            _ => assert!(false),
        }
    }
}

#[test]
fn test_exact_matcher() {
    let m = ExactMatcher {};
    assert_eq!(m.matches("foo", "foo"), Some(1_000_000));
    assert_eq!(m.matches("i pity", "the fool"), None);
    assert_eq!(m.matches("FOO", "foo"), None);
}

#[test]
fn test_case_insensitive_matcher() {
    let em = ExactMatcher {};
    let ci = CaseInsensitiveMatcher::new(em);

    assert_eq!(ci.matches("foo", "foo"), Some(700_000));
    assert_eq!(ci.matches("i pity", "the fool"), None);
    assert_eq!(ci.matches("FOO", "foo"), Some(700_000));
    assert_eq!(ci.matches("foo", "FOO"), Some(700_000));
    assert_eq!(ci.matches("aSdF", "AsDf"), Some(700_000));
}

#[test]
fn test_path_component_matcher() {
    let em = ExactMatcher {};
    let pc = PathComponentMatcher::new(em);

    assert_match_in_order(vec![
        pc.matches("/foo/bar", "foo"),
        pc.matches("/foo", "foo"),
    ]);
    assert_eq!(pc.matches("/foo", "foo"), pc.matches("/asdf/foo", "foo"));
    assert_eq!(pc.matches("/foo/bar", "ar"), None);
}

#[test]
fn test_substring_matcher() {
    let sm = SubstringMatcher {};

    assert_match_in_order(vec![
        sm.matches("foo", "f"),
        sm.matches("foo", "fo"),
        sm.matches("foo", "foo"),
    ]);
}

#[test]
fn exact_outranks_substring_and_case_folding() {
    // for the same pair, exact >= substring, and the case-insensitive
    // exact match is exactly 0.7 of the exact one
    let em = ExactMatcher {};
    let sm = SubstringMatcher {};
    let ci = CaseInsensitiveMatcher::new(ExactMatcher {});
    let e = em.matches("work", "work").unwrap();
    let s = sm.matches("work", "work").unwrap();
    let c = ci.matches("work", "work").unwrap();
    assert!(e >= s);
    assert_eq!(c, e * 7 / 10);
}

#[test]
fn substring_prefix_outranks_interior() {
    let sm = SubstringMatcher {};
    // same length ratio, but a prefix occurrence scores higher
    let prefix = sm.matches("abcd", "ab").unwrap();
    let interior = sm.matches("xabc", "ab").unwrap();
    assert_eq!(prefix, 1_000_000 * 2 / 4);
    assert_eq!(interior, 800_000 * 2 / 4);
    assert!(prefix > interior);
}
