use flagq::error::SourceError;
use flagq::eval::Context;
use flagq::number::parses_as_number;
use flagq::parser::parse_flags;
use flagq::report::{
    find_flag, missing_flag_message, outcome_report, parse_context_arg, usage, warn_on_unknown_keys,
};

#[test]
fn render_points_at_the_column() {
    let e = SourceError::new(1, 18, "expected `{` after flag name, found end of file".to_string());
    assert_eq!(
        e.render("flags.txt", "flag new-checkout"),
        "error: expected `{` after flag name, found end of file\n --> flags.txt:1:18\n  |\n1 | flag new-checkout\n  |                  ^\n"
    );
}

#[test]
fn render_keeps_tabs_and_picks_the_line() {
    let e = SourceError::new(2, 3, "bad".to_string());
    assert_eq!(
        e.render("f", "first\n\tx@y\r\nthird"),
        "error: bad\n --> f:2:3\n  |\n2 | \tx@y\n  | \t ^\n"
    );
}

#[test]
fn render_wide_gutter_and_missing_line() {
    let e = SourceError::new(12, 1, "m".to_string());
    assert_eq!(e.render("f", "a\nb"), "error: m\n  --> f:12:1\n   |\n12 | \n   | ^\n");
    let e = SourceError::new(0, 0, "m".to_string());
    assert_eq!(e.render("f", "abc"), "error: m\n --> f:0:0\n  |\n0 | abc\n  | ^\n");
}

#[test]
fn readme_parse_error() {
    let source = "flag new-checkout ";
    let e = parse_flags(source).unwrap_err();
    assert_eq!(
        e.render("flags.txt", source),
        "error: expected `{` after flag name, found end of file\n --> flags.txt:1:19\n  |\n1 | flag new-checkout \n  |                   ^\n"
    );
}

#[test]
fn numbers_as_f64_reads_them() {
    for s in ["1000", "2.5", "-1e3", ".5", "5.", "+7", "1E+10", "inf", "-Infinity", "NaN", "0"] {
        assert!(parses_as_number(s), "{}", s);
        assert!(s.parse::<f64>().is_ok());
    }
    for s in ["", ".", "+", "1e", "e5", "1.2.3", "abc", "1x", " 1", "--1", "1e+", "infinit", "0x10"] {
        assert!(!parses_as_number(s), "{}", s);
        assert!(s.parse::<f64>().is_err());
    }
}

#[test]
fn context_arguments() {
    assert_eq!(parse_context_arg("plan=pro"), Some(("plan".to_string(), "pro".to_string())));
    assert_eq!(parse_context_arg("a=b=c"), Some(("a".to_string(), "b=c".to_string())));
    assert_eq!(parse_context_arg("=x"), Some(("".to_string(), "x".to_string())));
    assert_eq!(parse_context_arg("k="), Some(("k".to_string(), "".to_string())));
    assert_eq!(parse_context_arg("plan"), None);
}

#[test]
fn usage_text() {
    assert_eq!(
        usage(),
        "usage: flagq <flags-file> <flag-name> [key=value ...]\n\nexample:\n  flagq flags.txt new-checkout plan=pro country=us\n"
    );
}

#[test]
fn missing_flag_suggests_and_lists() {
    let flags = parse_flags(
        "flag new-checkout { default: off } flag dark-mode { default: on }",
    )
    .unwrap();
    assert_eq!(find_flag(&flags, "new-checkot"), None);
    assert_eq!(find_flag(&flags, "dark-mode"), Some(1));
    assert_eq!(
        missing_flag_message(&flags, "new-checkot", "flags.txt"),
        "error: no flag named `new-checkot` in flags.txt\n  did you mean `new-checkout`?\n  defined flags: new-checkout, dark-mode\n"
    );
    assert_eq!(
        missing_flag_message(&flags, "zzz", "flags.txt"),
        "error: no flag named `zzz` in flags.txt\n  defined flags: new-checkout, dark-mode\n"
    );
    let none: Vec<flagq::parser::Flag> = Vec::new();
    assert_eq!(missing_flag_message(&none, "zzz", "f"), "error: no flag named `zzz` in f\n");
}

#[test]
fn find_flag_takes_the_first() {
    let flags = parse_flags("flag a { default: off } flag a { default: on }").unwrap();
    assert_eq!(find_flag(&flags, "a"), Some(0));
}

#[test]
fn warnings_for_near_unknown_keys() {
    let flags = parse_flags(
        "flag new-checkout { default: off rule: on if plan = pro rule: on if country = us and beta = true }",
    )
    .unwrap();
    let mut c = Context::new();
    c.insert("plna".to_string(), "pro".to_string());
    c.insert("country".to_string(), "us".to_string());
    c.insert("zzzzzz".to_string(), "1".to_string());
    c.insert("bta".to_string(), "1".to_string());
    assert_eq!(
        warn_on_unknown_keys(&flags[0], &c),
        vec![
            "warning: `plna` is not used by any rule on `new-checkout` (did you mean `plan`?)".to_string(),
            "warning: `bta` is not used by any rule on `new-checkout` (did you mean `beta`?)".to_string(),
        ]
    );
}

#[test]
fn outcome_lines() {
    assert_eq!(
        outcome_report("new-checkout", true, "rule 1 matched (plan = \"pro\")"),
        "new-checkout: on\nreason: rule 1 matched (plan = \"pro\")\n"
    );
    assert_eq!(outcome_report("x", false, "r"), "x: off\nreason: r\n");
}
