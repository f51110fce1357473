use flagq::error::{levenshtein, suggest};

#[test]
fn levenshtein_classic_pair() {
    assert_eq!(levenshtein("kitten", "sitting"), 3);
}

#[test]
fn levenshtein_empty_sides() {
    assert_eq!(levenshtein("", "abc"), 3);
    assert_eq!(levenshtein("abcd", ""), 4);
    assert_eq!(levenshtein("", ""), 0);
}

#[test]
fn levenshtein_identity_and_symmetry() {
    assert_eq!(levenshtein("new-checkout", "new-checkout"), 0);
    assert_eq!(levenshtein("flaw", "lawn"), levenshtein("lawn", "flaw"));
    assert_eq!(levenshtein("flaw", "lawn"), 2);
}

#[test]
fn levenshtein_counts_characters_not_bytes() {
    assert_eq!(levenshtein("héllo", "hello"), 1);
    assert_eq!(levenshtein("日本", "日本語"), 1);
}

#[test]
fn levenshtein_bounds_by_lengths() {
    let d = levenshtein("abc", "xyzuvw");
    assert!(d >= 3 && d <= 6);
    assert_eq!(d, 6);
}

#[test]
fn suggest_picks_typo() {
    let names = vec!["new-checkout", "dark-mode"];
    assert_eq!(suggest("new-checkot", &names), Some("new-checkout"));
}

#[test]
fn suggest_none_when_far() {
    let names = vec!["new-checkout", "dark-mode"];
    assert_eq!(suggest("something-else", &names), None);
    let empty: Vec<&str> = vec![];
    assert_eq!(suggest("x", &empty), None);
}

#[test]
fn suggest_prefers_closest_then_first() {
    let names = vec!["plan", "plam", "plat"];
    assert_eq!(suggest("plan", &names), Some("plan"));
    assert_eq!(suggest("plax", &names), Some("plan"));
    let names = vec!["abcd", "abce"];
    assert_eq!(suggest("abcf", &names), Some("abcd"));
}

#[test]
fn suggest_distance_two_is_the_limit() {
    let names = vec!["abcdef"];
    assert_eq!(suggest("abcdxy", &names), Some("abcdef"));
    assert_eq!(suggest("abcxyz", &names), None);
}

#[test]
fn distance_triangle_on_examples() {
    let words = ["", "plan", "plna", "planet", "beta", "bta", "new-checkout", "new-checkot"];
    for a in words {
        for b in words {
            for c in words {
                assert!(levenshtein(a, c) <= levenshtein(a, b) + levenshtein(b, c));
            }
        }
    }
    assert_eq!(levenshtein("plan", "planet"), 2);
    assert_eq!(levenshtein("plna", "planet"), 3);
}
