use flagq::lexer::Lexer;
use flagq::parser::{parse_flags, Flag, Operator, Parser};

const README_FLAGS: &str = r#"flag new-checkout {
    default: off
    rule: on if plan = "pro"
    rule: on if country = "us" and beta = "true"
}

flag dark-mode {
    default: on
    rule: off if legacy_browser = "true"
}

flag new-checkout {
    default: off
    rule: on if plan = "pro" or plan = "team"
    rule: on if country = "us" and beta != "false"
}
"#;

fn parse(src: &str) -> Result<Vec<Flag>, (usize, usize, String)> {
    parse_flags(src).map_err(|e| (e.line, e.col, e.message))
}

fn err(src: &str) -> (usize, usize, String) {
    parse(src).unwrap_err()
}

#[test]
fn parses_readme_example() {
    let flags = parse(README_FLAGS).unwrap();
    assert_eq!(flags.len(), 3);
    assert_eq!(flags[0].name, "new-checkout");
    assert!(!flags[0].default);
    assert_eq!(flags[0].rules.len(), 2);
    assert!(flags[0].rules[0].effect);
    assert_eq!(flags[0].rules[0].clauses.len(), 1);
    assert_eq!(flags[0].rules[0].clauses[0][0].key, "plan");
    assert_eq!(flags[0].rules[0].clauses[0][0].value, "pro");
    assert_eq!(flags[0].rules[0].clauses[0][0].op, Operator::Eq);
    assert_eq!(flags[0].rules[1].clauses[0].len(), 2);
    assert_eq!(flags[1].name, "dark-mode");
    assert!(flags[1].default);
    assert!(!flags[1].rules[0].effect);
    let r = &flags[2].rules[0];
    assert_eq!(r.clauses.len(), 2);
    assert_eq!(r.clauses[1][0].value, "team");
    assert_eq!(flags[2].rules[1].clauses[0][1].op, Operator::NotEq);
}

#[test]
fn and_binds_tighter_than_or() {
    let flags =
        parse("flag f { default: off rule: on if a = \"1\" and b = \"2\" or c = \"3\" }").unwrap();
    let clauses = &flags[0].rules[0].clauses;
    assert_eq!(clauses.len(), 2);
    assert_eq!(clauses[0].len(), 2);
    assert_eq!(clauses[0][0].key, "a");
    assert_eq!(clauses[0][1].key, "b");
    assert_eq!(clauses[1].len(), 1);
    assert_eq!(clauses[1][0].key, "c");
}

#[test]
fn numeric_conditions() {
    let flags = parse(
        "flag high-volume { default: off rule: on if requests_per_day >= 1000 or x < \"2.5\" or y <= -1e3 or z > \".5\" }",
    )
    .unwrap();
    let cl = &flags[0].rules[0].clauses;
    assert_eq!(cl[0][0].op, Operator::Ge);
    assert_eq!(cl[0][0].value, "1000");
    assert_eq!(cl[1][0].op, Operator::Lt);
    assert_eq!(cl[2][0].op, Operator::Le);
    assert_eq!(cl[3][0].op, Operator::Gt);
    // a `.` is not part of an identifier, so a fraction has to be quoted
    assert_eq!(err("flag f { default: off rule: on if x < 2.5 }").2, "unexpected character '.'");
}

#[test]
fn numeric_comparison_needs_a_number() {
    assert_eq!(
        err("flag f { default: off\n rule: on if n >= lots }"),
        (2, 19, "expected a number after `>=`, found `lots`".to_string())
    );
    assert_eq!(
        err("flag f { default: off rule: on if n < \"1x\" }").2,
        "expected a number after `<`, found `1x`"
    );
}

#[test]
fn empty_file_has_no_flags() {
    assert_eq!(parse("").unwrap().len(), 0);
    assert_eq!(parse("# only a comment\n").unwrap().len(), 0);
}

#[test]
fn flag_without_rules() {
    let flags = parse("flag f { default: on }").unwrap();
    assert_eq!(flags[0].rules.len(), 0);
}

#[test]
fn missing_brace_after_name() {
    assert_eq!(
        err("flag new-checkout"),
        (1, 18, "expected `{` after flag name, found end of file".to_string())
    );
}

#[test]
fn errors_name_what_was_expected() {
    assert_eq!(err("flg x { }").2, "expected `flag`, found `flg`");
    assert_eq!(err("flag { }").2, "expected a flag name, found `{`");
    assert_eq!(err("flag x { dflt: on }").2, "expected `default`, found `dflt`");
    assert_eq!(err("flag x { default on }").2, "expected `:` after `default`, found `on`");
    assert_eq!(err("flag x { default: yes }").2, "expected `on` or `off`, found `yes`");
    assert_eq!(err("flag x { default: on x }").2, "expected `rule` or `}`, found `x`");
    assert_eq!(err("flag x { default: on rule on }").2, "expected `:` after `rule`, found `on`");
    assert_eq!(err("flag x { default: on rule: on when a = b }").2, "expected `if`, found `when`");
    assert_eq!(err("flag x { default: on rule: on if \"a\" = b }").2, "expected a context key, found \"a\"");
    assert_eq!(
        err("flag x { default: on rule: on if a b }").2,
        "expected `=`, `!=`, `<`, `<=`, `>` or `>=` after context key, found `b`"
    );
    assert_eq!(err("flag x { default: on rule: on if a = }").2, "expected a value, found `}`");
    assert_eq!(err("flag x { default: on").2, "expected `rule` or `}`, found end of file");
}

#[test]
fn lexer_errors_come_through() {
    assert_eq!(err("flag x { default: on ! }").2, "expected `=` after `!`");
}

#[test]
fn parser_on_given_tokens() {
    let tokens = Lexer::new("flag a { default: on }").tokenize().unwrap();
    let flags = Parser::new(tokens).parse_file().unwrap();
    assert_eq!(flags.len(), 1);
    assert_eq!(flags[0].name, "a");
}

#[test]
fn operator_symbols() {
    assert_eq!(Operator::Eq.symbol(), "=");
    assert_eq!(Operator::NotEq.symbol(), "!=");
    assert_eq!(Operator::Lt.symbol(), "<");
    assert_eq!(Operator::Le.symbol(), "<=");
    assert_eq!(Operator::Gt.symbol(), ">");
    assert_eq!(Operator::Ge.symbol(), ">=");
    assert_eq!(Operator::Rollout.symbol(), "rollout");
}

#[test]
fn parses_rollout() {
    let flags = parse("flag beta-analytics {\n    default: off\n    rule: on if user_id rollout 25%\n}").unwrap();
    let c = &flags[0].rules[0].clauses[0][0];
    assert_eq!(c.key, "user_id");
    assert_eq!(c.op, Operator::Rollout);
    assert_eq!(c.value, "25");
    let flags = parse("flag f { default: off rule: on if id rollout \"0.5\"% and plan = pro }").unwrap();
    assert_eq!(flags[0].rules[0].clauses[0].len(), 2);
    assert_eq!(flags[0].rules[0].clauses[0][0].value, "0.5");
}

#[test]
fn rollout_percentage_is_checked() {
    assert_eq!(
        err("flag f { default: off\n rule: on if id rollout 101% }"),
        (2, 25, "expected a percentage from 0 to 100 after `rollout`, found `101`".to_string())
    );
    assert_eq!(
        err("flag f { default: off rule: on if id rollout abc% }").2,
        "expected a percentage from 0 to 100 after `rollout`, found `abc`"
    );
    assert_eq!(
        err("flag f { default: off rule: on if id rollout \"100.5\"% }").2,
        "expected a percentage from 0 to 100 after `rollout`, found `100.5`"
    );
    assert_eq!(
        err("flag f { default: off rule: on if id rollout 25 }").2,
        "expected `%` after the percentage, found `}`"
    );
    assert_eq!(
        err("flag f { default: off rule: on if id rollout % }").2,
        "expected a value, found `%`"
    );
    assert!(parse("flag f { default: off rule: on if id rollout 100% }").is_ok());
    assert!(parse("flag f { default: off rule: on if id rollout \"100.0\"% }").is_ok());
    assert!(parse("flag f { default: off rule: on if id rollout 0% }").is_ok());
}
