use flagq::eval::{describe_conditions, evaluate, rule_matches, value_bucket, Context, NumericOrder};
use flagq::parser::{parse_flags, Flag};

fn flags(src: &str) -> Vec<Flag> {
    parse_flags(src).unwrap()
}

fn ctx(pairs: &[(&str, &str)]) -> Context {
    let mut c = Context::new();
    for (k, v) in pairs {
        c.insert(k.to_string(), v.to_string());
    }
    c
}

const NEW_CHECKOUT: &str = r#"flag new-checkout {
    default: off
    rule: on if plan = "pro"
    rule: on if country = "us" and beta = "true"
}"#;

#[test]
fn first_rule_matches() {
    let f = &flags(NEW_CHECKOUT)[0];
    let (on, reason) = evaluate(f, &ctx(&[("plan", "pro")]), &NumericOrder::new());
    assert!(on);
    assert_eq!(reason, "rule 1 matched (plan = \"pro\")");
}

#[test]
fn second_rule_matches() {
    let f = &flags(NEW_CHECKOUT)[0];
    let (on, reason) =
        evaluate(f, &ctx(&[("country", "us"), ("beta", "true")]), &NumericOrder::new());
    assert!(on);
    assert_eq!(reason, "rule 2 matched (country = \"us\" and beta = \"true\")");
}

#[test]
fn falls_through_to_default() {
    let f = &flags(NEW_CHECKOUT)[0];
    let (on, reason) = evaluate(f, &ctx(&[("plan", "free")]), &NumericOrder::new());
    assert!(!on);
    assert_eq!(reason, "no rule matched, fell through to default");
}

#[test]
fn all_conditions_of_a_clause_must_match() {
    let f = &flags(NEW_CHECKOUT)[0];
    let (on, _) = evaluate(f, &ctx(&[("country", "us"), ("beta", "false")]), &NumericOrder::new());
    assert!(!on);
}

#[test]
fn off_rule_on_default_on() {
    let f = &flags("flag dark-mode { default: on rule: off if legacy_browser = \"true\" }")[0];
    assert_eq!(
        evaluate(f, &ctx(&[("legacy_browser", "true")]), &NumericOrder::new()),
        (false, "rule 1 matched (legacy_browser = \"true\")".to_string())
    );
    assert!(evaluate(f, &ctx(&[]), &NumericOrder::new()).0);
}

#[test]
fn or_and_not_equal() {
    let src = r#"flag new-checkout {
        default: off
        rule: on if plan = "pro" or plan = "team"
        rule: on if country = "us" and beta != "false"
    }"#;
    let f = &flags(src)[0];
    let none = NumericOrder::new();
    let (on, reason) = evaluate(f, &ctx(&[("plan", "team")]), &none);
    assert!(on);
    assert_eq!(reason, "rule 1 matched (plan = \"pro\" or plan = \"team\")");
    let (on, reason) = evaluate(f, &ctx(&[("country", "us")]), &none);
    assert!(on);
    assert_eq!(reason, "rule 2 matched (country = \"us\" and beta != \"false\")");
    assert!(!evaluate(f, &ctx(&[("country", "us"), ("beta", "false")]), &none).0);
}

#[test]
fn numeric_comparison_by_rank() {
    let f = &flags("flag high-volume { default: off rule: on if requests_per_day >= 1000 }")[0];
    let mut order = NumericOrder::new();
    order.add("999".to_string(), 0);
    order.add("1000".to_string(), 1);
    order.add("1e3".to_string(), 1);
    order.add("5000".to_string(), 2);
    assert!(evaluate(f, &ctx(&[("requests_per_day", "5000")]), &order).0);
    assert!(evaluate(f, &ctx(&[("requests_per_day", "1e3")]), &order).0);
    assert!(!evaluate(f, &ctx(&[("requests_per_day", "999")]), &order).0);
    assert_eq!(
        evaluate(f, &ctx(&[("requests_per_day", "5000")]), &order).1,
        "rule 1 matched (requests_per_day >= \"1000\")"
    );
}

#[test]
fn numeric_condition_on_missing_or_non_number_does_not_match() {
    let f = &flags("flag f { default: off rule: on if n < 10 }")[0];
    let mut order = NumericOrder::new();
    order.add("10".to_string(), 5);
    assert!(!evaluate(f, &ctx(&[]), &order).0);
    assert!(!evaluate(f, &ctx(&[("n", "abc")]), &order).0);
}

#[test]
fn rule_matches_and_description() {
    let f = &flags("flag f { default: off rule: on if a = x and b != y or c = z }")[0];
    let r = &f.rules[0];
    let none = NumericOrder::new();
    assert!(rule_matches(r, &ctx(&[("a", "x")]), &none, "f"));
    assert!(!rule_matches(r, &ctx(&[("a", "x"), ("b", "y")]), &none, "f"));
    assert!(rule_matches(r, &ctx(&[("c", "z"), ("b", "y")]), &none, "f"));
    assert_eq!(describe_conditions(r), "a = \"x\" and b != \"y\" or c = \"z\"");
}

#[test]
fn context_later_value_replaces_earlier() {
    let mut c = Context::new();
    c.insert("plan".to_string(), "free".to_string());
    c.insert("country".to_string(), "us".to_string());
    c.insert("plan".to_string(), "pro".to_string());
    assert_eq!(c.get("plan").map(|s| s.as_str()), Some("pro"));
    assert_eq!(c.get("country").map(|s| s.as_str()), Some("us"));
    assert_eq!(c.get("beta"), None);
    let keys: Vec<&str> = c.keys().into_iter().map(|s| s.as_str()).collect();
    assert_eq!(keys, vec!["plan", "country"]);
}

#[test]
fn numeric_order_first_rank_counts() {
    let mut o = NumericOrder::new();
    o.add("1".to_string(), 3);
    o.add("1".to_string(), 7);
    assert_eq!(o.rank("1"), Some(3));
    assert_eq!(o.rank("2"), None);
}

#[test]
fn bucket_is_fnv_of_flag_and_value() {
    assert_eq!(value_bucket("beta-analytics", "alice"), 10);
    assert_eq!(value_bucket("beta-analytics", "carol"), 79);
    assert_eq!(value_bucket("other-flag", "alice"), 62);
    assert_eq!(value_bucket("beta-analytics", "\u{fc}"), 26);
    assert_eq!(value_bucket("beta-analytics", "alice"), value_bucket("beta-analytics", "alice"));
}

#[test]
fn rollout_splits_by_bucket() {
    let f = &flags("flag beta-analytics {\n    default: off\n    rule: on if user_id rollout 25%\n}")[0];
    let none = NumericOrder::new();
    let (on, reason) = evaluate(f, &ctx(&[("user_id", "alice")]), &none);
    assert!(on);
    assert_eq!(reason, "rule 1 matched (user_id rollout 25%)");
    assert!(evaluate(f, &ctx(&[("user_id", "dave")]), &none).0);
    assert!(!evaluate(f, &ctx(&[("user_id", "carol")]), &none).0);
    assert!(!evaluate(f, &ctx(&[("user_id", "u1")]), &none).0);
    assert!(!evaluate(f, &ctx(&[]), &none).0);
    // the same value on another flag lands in another bucket
    let g = &flags("flag other-flag { default: off rule: on if user_id rollout 25% }")[0];
    assert!(!evaluate(g, &ctx(&[("user_id", "alice")]), &none).0);
    assert!(evaluate(g, &ctx(&[("user_id", "carol")]), &none).0);
}

#[test]
fn rollout_edges() {
    let none = NumericOrder::new();
    let zero = &flags("flag f { default: off rule: on if id rollout 0% }")[0];
    let all = &flags("flag f { default: off rule: on if id rollout 100% }")[0];
    for v in ["alice", "bob", "carol", "u2", ""] {
        assert!(!evaluate(zero, &ctx(&[("id", v)]), &none).0);
        assert!(evaluate(all, &ctx(&[("id", v)]), &none).0);
    }
    assert!(!evaluate(all, &ctx(&[]), &none).0);
    // a fraction of a percent takes in the next bucket
    let half = &flags("flag beta-analytics { default: off rule: on if id rollout \"0.5\"% }")[0];
    assert!(!evaluate(half, &ctx(&[("id", "alice")]), &none).0);
    let one = &flags("flag beta-analytics { default: off rule: on if id rollout \"1.5\"% }")[0];
    assert!(evaluate(one, &ctx(&[("id", "bob")]), &none).0);
}

#[test]
fn evaluation_ignores_unnamed_keys() {
    let f = &flags(NEW_CHECKOUT)[0];
    let none = NumericOrder::new();
    let a = evaluate(f, &ctx(&[("country", "us"), ("beta", "true")]), &none);
    let b = evaluate(f, &ctx(&[("x", "1"), ("country", "us"), ("beta", "true"), ("zzz", "pro")]), &none);
    assert_eq!(a, b);
    assert_eq!(a, (true, "rule 2 matched (country = \"us\" and beta = \"true\")".to_string()));
}
