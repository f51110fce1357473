use vstd::prelude::*;
use vstd::string::StringExecFns;
use crate::error::{ErrorView, SourceError};
use crate::lexer::{describe, error_at, error_placed, law_positions_one_based, law_tokens_end_with_eof, placed, lexed, tokenize_spec, tokens_view, Lexeme, Lexer, Token, TokenKind, TokenView};
use crate::number::{is_number, is_percentage, parses_as_number, percentage_threshold};
use crate::text::str_eq;

verus! {

#[derive(Debug)]
pub struct Flag {
    pub name: String,
    pub default: bool,
    pub rules: Vec<Rule>,
}

/// A rule matches if any clause matches; a clause matches if all of its
/// conditions match. This is `or` of `and`s, so `or` reads as lower
/// precedence than `and` the way it does in most languages.
#[derive(Debug)]
pub struct Rule {
    pub effect: bool,
    pub clauses: Vec<Vec<Condition>>,
}

#[derive(Debug, Clone, Copy, PartialEq, Eq, Structural)]
pub enum Operator {
    Eq,
    NotEq,
    Lt,
    Le,
    Gt,
    Ge,
    Rollout,
}

#[derive(Debug)]
pub struct Condition {
    pub key: String,
    pub value: String,
    pub op: Operator,
}

pub struct ConditionView {
    pub key: Seq<char>,
    pub value: Seq<char>,
    pub op: Operator,
}

pub struct RuleView {
    pub effect: bool,
    pub clauses: Seq<Seq<ConditionView>>,
}

pub struct FlagView {
    pub name: Seq<char>,
    pub default: bool,
    pub rules: Seq<RuleView>,
}

impl View for Condition {
    type V = ConditionView;

    open spec fn view(&self) -> ConditionView {
        ConditionView { key: self.key@, value: self.value@, op: self.op }
    }
}

pub open spec fn clause_view(c: Seq<Condition>) -> Seq<ConditionView> {
    c.map_values(|x: Condition| x@)
}

pub open spec fn clauses_view(cs: Seq<Vec<Condition>>) -> Seq<Seq<ConditionView>> {
    cs.map_values(|c: Vec<Condition>| clause_view(c@))
}

impl View for Rule {
    type V = RuleView;

    open spec fn view(&self) -> RuleView {
        RuleView { effect: self.effect, clauses: clauses_view(self.clauses@) }
    }
}

pub open spec fn rules_view(rs: Seq<Rule>) -> Seq<RuleView> {
    rs.map_values(|r: Rule| r@)
}

impl View for Flag {
    type V = FlagView;

    open spec fn view(&self) -> FlagView {
        FlagView { name: self.name@, default: self.default, rules: rules_view(self.rules@) }
    }
}

pub open spec fn flags_view(fs: Seq<Flag>) -> Seq<FlagView> {
    fs.map_values(|f: Flag| f@)
}

/// How an operator is written.
pub open spec fn symbol(op: Operator) -> Seq<char> {
    match op {
        Operator::Eq => "="@,
        Operator::NotEq => "!="@,
        Operator::Lt => "<"@,
        Operator::Le => "<="@,
        Operator::Gt => ">"@,
        Operator::Ge => ">="@,
        Operator::Rollout => "rollout"@,
    }
}

pub open spec fn is_numeric(op: Operator) -> bool {
    op == Operator::Lt || op == Operator::Le || op == Operator::Gt || op == Operator::Ge
}

impl Operator {
    pub fn symbol(&self) -> (r: &'static str)
        ensures
            r@ == symbol(*self),
    {
        match self {
            Operator::Eq => "=",
            Operator::NotEq => "!=",
            Operator::Lt => "<",
            Operator::Le => "<=",
            Operator::Gt => ">",
            Operator::Ge => ">=",
            Operator::Rollout => "rollout",
        }
    }

    fn is_numeric(&self) -> (r: bool)
        ensures
            r == is_numeric(*self),
    {
        match self {
            Operator::Lt | Operator::Le | Operator::Gt | Operator::Ge => true,
            _ => false,
        }
    }
}

// ---------------------------------------------------------------------------
// The grammar of a flags file, as functions of its tokens. Each reads from a
// position and gives what it read and the position after it, or an error.

/// The position after `p`; the last token is never left.
pub open spec fn next(ts: Seq<TokenView>, p: int) -> int {
    if p + 1 < ts.len() {
        p + 1
    } else {
        p
    }
}

pub open spec fn error_at_token(t: TokenView, message: Seq<char>) -> ErrorView {
    error_at(t.line, t.col, message)
}

/// Whether two token kinds are the same variant.
pub open spec fn same_variant(a: Lexeme, b: Lexeme) -> bool {
    match (a, b) {
        (Lexeme::Ident(_), Lexeme::Ident(_)) => true,
        (Lexeme::Str(_), Lexeme::Str(_)) => true,
        (Lexeme::Ident(_), _) => false,
        (Lexeme::Str(_), _) => false,
        (_, Lexeme::Ident(_)) => false,
        (_, Lexeme::Str(_)) => false,
        _ => a == b,
    }
}

pub open spec fn is_word(k: Lexeme, w: Seq<char>) -> bool {
    k matches Lexeme::Ident(s) && s == w
}

pub open spec fn expect_spec(ts: Seq<TokenView>, p: int, k: Lexeme, context: Seq<char>) -> Result<
    int,
    ErrorView,
> {
    if same_variant(ts[p].kind, k) {
        Ok(next(ts, p))
    } else {
        Err(
            error_at_token(
                ts[p],
                "expected "@ + describe(k) + " "@ + context + ", found "@ + describe(ts[p].kind),
            ),
        )
    }
}

pub open spec fn expect_word_spec(ts: Seq<TokenView>, p: int, w: Seq<char>) -> Result<
    int,
    ErrorView,
> {
    if is_word(ts[p].kind, w) {
        Ok(next(ts, p))
    } else {
        Err(error_at_token(ts[p], "expected `"@ + w + "`, found "@ + describe(ts[p].kind)))
    }
}

pub open spec fn bool_word_spec(ts: Seq<TokenView>, p: int) -> Result<(bool, int), ErrorView> {
    if is_word(ts[p].kind, "on"@) {
        Ok((true, next(ts, p)))
    } else if is_word(ts[p].kind, "off"@) {
        Ok((false, next(ts, p)))
    } else {
        Err(error_at_token(ts[p], "expected `on` or `off`, found "@ + describe(ts[p].kind)))
    }
}

pub open spec fn value_spec(ts: Seq<TokenView>, p: int) -> Result<(Seq<char>, int), ErrorView> {
    match ts[p].kind {
        Lexeme::Str(s) => Ok((s, next(ts, p))),
        Lexeme::Ident(s) => Ok((s, next(ts, p))),
        k => Err(error_at_token(ts[p], "expected a value, found "@ + describe(k))),
    }
}

pub open spec fn operator_of(k: Lexeme) -> Option<Operator> {
    match k {
        Lexeme::Equal => Some(Operator::Eq),
        Lexeme::NotEqual => Some(Operator::NotEq),
        Lexeme::Lt => Some(Operator::Lt),
        Lexeme::Le => Some(Operator::Le),
        Lexeme::Gt => Some(Operator::Gt),
        Lexeme::Ge => Some(Operator::Ge),
        _ => None,
    }
}

/// `key rollout N%`, after the key; the percentage must lie between 0 and 100.
pub open spec fn rollout_spec(ts: Seq<TokenView>, key: Seq<char>, p1: int) -> Result<
    (ConditionView, int),
    ErrorView,
> {
    let p2 = next(ts, p1);
    match value_spec(ts, p2) {
        Ok((value, p3)) => {
            if !is_percentage(value) {
                Err(
                    error_at_token(
                        ts[p2],
                        "expected a percentage from 0 to 100 after `rollout`, found `"@ + value
                            + "`"@,
                    ),
                )
            } else {
                match expect_spec(ts, p3, Lexeme::Percent, "after the percentage"@) {
                    Ok(p4) => Ok((ConditionView { key, value, op: Operator::Rollout }, p4)),
                    Err(e) => Err(e),
                }
            }
        },
        Err(e) => Err(e),
    }
}

/// `key op value`, where the value of a numeric comparison must be a number;
/// or `key rollout N%`.
pub open spec fn condition_spec(ts: Seq<TokenView>, p: int) -> Result<(ConditionView, int), ErrorView> {
    let p1 = next(ts, p);
    match ts[p].kind {
        Lexeme::Ident(key) => if is_word(ts[p1].kind, "rollout"@) {
            rollout_spec(ts, key, p1)
        } else {
            match operator_of(ts[p1].kind) {
                Some(op) => {
                    let p2 = next(ts, p1);
                    match value_spec(ts, p2) {
                        Ok((value, p3)) => {
                            if is_numeric(op) && !is_number(value) {
                                Err(
                                    error_at_token(
                                        ts[p2],
                                        "expected a number after `"@ + symbol(op) + "`, found `"@
                                            + value + "`"@,
                                    ),
                                )
                            } else {
                                Ok((ConditionView { key, value, op }, p3))
                            }
                        },
                        Err(e) => Err(e),
                    }
                },
                None => Err(
                    error_at_token(
                        ts[p1],
                        "expected `=`, `!=`, `<`, `<=`, `>` or `>=` after context key, found "@
                            + describe(ts[p1].kind),
                    ),
                ),
            }
        },
        k => Err(error_at_token(ts[p], "expected a context key, found "@ + describe(k))),
    }
}

pub proof fn lemma_next(ts: Seq<TokenView>, p: int)
    ensures
        next(ts, p) >= p,
        next(ts, p) == p || next(ts, p) == p + 1,
        next(ts, p) == p + 1 ==> next(ts, p) < ts.len(),
        0 <= p < ts.len() ==> next(ts, p) < ts.len(),
{
}

pub proof fn lemma_condition(ts: Seq<TokenView>, p: int)
    ensures
        condition_spec(ts, p) matches Ok((_, q)) ==> p < q < ts.len(),
{
    let p1 = next(ts, p);
    let p2 = next(ts, p1);
    let p3 = next(ts, p2);
    lemma_next(ts, p);
    lemma_next(ts, p1);
    lemma_next(ts, p2);
    lemma_next(ts, p3);
}

/// Further conditions, each after `and`.
pub open spec fn and_rest(ts: Seq<TokenView>, p: int, acc: Seq<ConditionView>) -> Result<
    (Seq<ConditionView>, int),
    ErrorView,
>
    decreases ts.len() - p,
{
    if is_word(ts[p].kind, "and"@) {
        match condition_spec(ts, next(ts, p)) {
            Ok((c, q)) => {
                proof {
                    lemma_next(ts, p);
                    lemma_condition(ts, next(ts, p));
                }
                and_rest(ts, q, acc.push(c))
            },
            Err(e) => Err(e),
        }
    } else {
        Ok((acc, p))
    }
}

pub proof fn lemma_and_rest(ts: Seq<TokenView>, p: int, acc: Seq<ConditionView>)
    ensures
        and_rest(ts, p, acc) matches Ok((cs, q)) ==> p <= q && (q == p || q < ts.len()) && cs.len()
            >= acc.len(),
    decreases ts.len() - p,
{
    if is_word(ts[p].kind, "and"@) {
        lemma_next(ts, p);
        lemma_condition(ts, next(ts, p));
        if let Ok((c, q)) = condition_spec(ts, next(ts, p)) {
            lemma_and_rest(ts, q, acc.push(c));
        }
    }
}

/// Conditions joined by `and`.
pub open spec fn and_group_spec(ts: Seq<TokenView>, p: int) -> Result<
    (Seq<ConditionView>, int),
    ErrorView,
> {
    match condition_spec(ts, p) {
        Ok((c, q)) => and_rest(ts, q, seq![c]),
        Err(e) => Err(e),
    }
}

pub proof fn lemma_and_group(ts: Seq<TokenView>, p: int)
    ensures
        and_group_spec(ts, p) matches Ok((cs, q)) ==> p < q < ts.len() && cs.len() >= 1,
{
    lemma_condition(ts, p);
    if let Ok((c, q)) = condition_spec(ts, p) {
        lemma_and_rest(ts, q, seq![c]);
    }
}

/// Further groups, each after `or`.
pub open spec fn or_rest(ts: Seq<TokenView>, p: int, acc: Seq<Seq<ConditionView>>) -> Result<
    (Seq<Seq<ConditionView>>, int),
    ErrorView,
>
    decreases ts.len() - p,
{
    if is_word(ts[p].kind, "or"@) {
        match and_group_spec(ts, next(ts, p)) {
            Ok((g, q)) => {
                proof {
                    lemma_next(ts, p);
                    lemma_and_group(ts, next(ts, p));
                }
                or_rest(ts, q, acc.push(g))
            },
            Err(e) => Err(e),
        }
    } else {
        Ok((acc, p))
    }
}

pub proof fn lemma_or_rest(ts: Seq<TokenView>, p: int, acc: Seq<Seq<ConditionView>>)
    ensures
        or_rest(ts, p, acc) matches Ok((gs, q)) ==> p <= q && (q == p || q < ts.len()) && gs.len()
            >= acc.len(),
    decreases ts.len() - p,
{
    if is_word(ts[p].kind, "or"@) {
        lemma_next(ts, p);
        lemma_and_group(ts, next(ts, p));
        if let Ok((g, q)) = and_group_spec(ts, next(ts, p)) {
            lemma_or_rest(ts, q, acc.push(g));
        }
    }
}

/// `: on|off if <groups joined by or>`, after the word `rule`.
pub open spec fn rule_spec(ts: Seq<TokenView>, p: int) -> Result<(RuleView, int), ErrorView> {
    match expect_spec(ts, p, Lexeme::Colon, "after `rule`"@) {
        Ok(p1) => match bool_word_spec(ts, p1) {
            Ok((effect, p2)) => match expect_word_spec(ts, p2, "if"@) {
                Ok(p3) => match and_group_spec(ts, p3) {
                    Ok((g, p4)) => match or_rest(ts, p4, seq![g]) {
                        Ok((clauses, p5)) => Ok((RuleView { effect, clauses }, p5)),
                        Err(e) => Err(e),
                    },
                    Err(e) => Err(e),
                },
                Err(e) => Err(e),
            },
            Err(e) => Err(e),
        },
        Err(e) => Err(e),
    }
}

pub proof fn lemma_rule(ts: Seq<TokenView>, p: int)
    ensures
        rule_spec(ts, p) matches Ok((_, q)) ==> p < q < ts.len(),
{
    if let Ok(p1) = expect_spec(ts, p, Lexeme::Colon, "after `rule`"@) {
        lemma_next(ts, p);
        if let Ok((effect, p2)) = bool_word_spec(ts, p1) {
            assert(p1 != p);
            lemma_next(ts, p1);
            if let Ok(p3) = expect_word_spec(ts, p2, "if"@) {
                lemma_next(ts, p2);
                lemma_and_group(ts, p3);
                if let Ok((g, p4)) = and_group_spec(ts, p3) {
                    lemma_or_rest(ts, p4, seq![g]);
                }
            }
        }
    }
}

/// Rules, each after the word `rule`, up to a `}`.
pub open spec fn rules_spec(ts: Seq<TokenView>, p: int, acc: Seq<RuleView>) -> Result<
    (Seq<RuleView>, int),
    ErrorView,
>
    decreases ts.len() - p,
{
    if is_word(ts[p].kind, "rule"@) {
        match rule_spec(ts, next(ts, p)) {
            Ok((r, q)) => {
                proof {
                    lemma_next(ts, p);
                    lemma_rule(ts, next(ts, p));
                }
                rules_spec(ts, q, acc.push(r))
            },
            Err(e) => Err(e),
        }
    } else if ts[p].kind == Lexeme::RBrace {
        Ok((acc, p))
    } else {
        Err(error_at_token(ts[p], "expected `rule` or `}`, found "@ + describe(ts[p].kind)))
    }
}

pub proof fn lemma_rules(ts: Seq<TokenView>, p: int, acc: Seq<RuleView>)
    ensures
        rules_spec(ts, p, acc) matches Ok((_, q)) ==> p <= q && (q == p || q < ts.len()),
    decreases ts.len() - p,
{
    if is_word(ts[p].kind, "rule"@) {
        lemma_next(ts, p);
        lemma_rule(ts, next(ts, p));
        if let Ok((r, q)) = rule_spec(ts, next(ts, p)) {
            lemma_rules(ts, q, acc.push(r));
        }
    }
}

/// `flag <name> { default: on|off <rules> }`.
pub open spec fn flag_spec(ts: Seq<TokenView>, p: int) -> Result<(FlagView, int), ErrorView> {
    match expect_word_spec(ts, p, "flag"@) {
        Ok(p1) => match ts[p1].kind {
            Lexeme::Ident(name) => {
                let p2 = next(ts, p1);
                match expect_spec(ts, p2, Lexeme::LBrace, "after flag name"@) {
                    Ok(p3) => match expect_word_spec(ts, p3, "default"@) {
                        Ok(p4) => match expect_spec(ts, p4, Lexeme::Colon, "after `default`"@) {
                            Ok(p5) => match bool_word_spec(ts, p5) {
                                Ok((default, p6)) => match rules_spec(ts, p6, Seq::empty()) {
                                    Ok((rules, p7)) => match expect_spec(
                                        ts,
                                        p7,
                                        Lexeme::RBrace,
                                        "to close flag block"@,
                                    ) {
                                        Ok(p8) => Ok((FlagView { name, default, rules }, p8)),
                                        Err(e) => Err(e),
                                    },
                                    Err(e) => Err(e),
                                },
                                Err(e) => Err(e),
                            },
                            Err(e) => Err(e),
                        },
                        Err(e) => Err(e),
                    },
                    Err(e) => Err(e),
                }
            },
            k => Err(error_at_token(ts[p1], "expected a flag name, found "@ + describe(k))),
        },
        Err(e) => Err(e),
    }
}

pub proof fn lemma_flag(ts: Seq<TokenView>, p: int)
    ensures
        flag_spec(ts, p) matches Ok((_, q)) ==> p < q < ts.len(),
{
    if let Ok((f, q)) = flag_spec(ts, p) {
        let p1 = next(ts, p);
        let p2 = next(ts, p1);
        let p3 = next(ts, p2);
        let p4 = next(ts, p3);
        let p5 = next(ts, p4);
        let p6 = next(ts, p5);
        lemma_next(ts, p);
        lemma_next(ts, p1);
        lemma_next(ts, p2);
        lemma_next(ts, p3);
        lemma_next(ts, p4);
        lemma_next(ts, p5);
        assert(p1 != p);
        lemma_rules(ts, p6, Seq::empty());
        if let Ok((rules, p7)) = rules_spec(ts, p6, Seq::empty()) {
            lemma_next(ts, p7);
        }
    }
}

/// Flags, up to the end of the file.
pub open spec fn flags_spec(ts: Seq<TokenView>, p: int, acc: Seq<FlagView>) -> Result<
    Seq<FlagView>,
    ErrorView,
>
    decreases ts.len() - p,
{
    if ts[p].kind == Lexeme::Eof {
        Ok(acc)
    } else {
        match flag_spec(ts, p) {
            Ok((f, q)) => {
                proof {
                    lemma_flag(ts, p);
                }
                flags_spec(ts, q, acc.push(f))
            },
            Err(e) => Err(e),
        }
    }
}

/// The flags of a file's tokens, or the first error in them.
pub open spec fn parse_spec(ts: Seq<TokenView>) -> Result<Seq<FlagView>, ErrorView> {
    flags_spec(ts, 0, Seq::empty())
}


fn exec_same_variant(a: &TokenKind, b: &TokenKind) -> (r: bool)
    ensures
        r == same_variant(a@, b@),
{
    match (a, b) {
        (TokenKind::Ident(_), TokenKind::Ident(_)) => true,
        (TokenKind::Str(_), TokenKind::Str(_)) => true,
        (TokenKind::LBrace, TokenKind::LBrace) => true,
        (TokenKind::RBrace, TokenKind::RBrace) => true,
        (TokenKind::Colon, TokenKind::Colon) => true,
        (TokenKind::Equal, TokenKind::Equal) => true,
        (TokenKind::NotEqual, TokenKind::NotEqual) => true,
        (TokenKind::Lt, TokenKind::Lt) => true,
        (TokenKind::Le, TokenKind::Le) => true,
        (TokenKind::Gt, TokenKind::Gt) => true,
        (TokenKind::Ge, TokenKind::Ge) => true,
        (TokenKind::Percent, TokenKind::Percent) => true,
        (TokenKind::Eof, TokenKind::Eof) => true,
        _ => false,
    }
}

fn exec_is_word(k: &TokenKind, w: &str) -> (r: bool)
    ensures
        r == is_word(k@, w@),
{
    match k {
        TokenKind::Ident(s) => str_eq(s.as_str(), w),
        _ => false,
    }
}

fn message_found(prefix: String, found: &TokenKind) -> (m: String)
    ensures
        m@ == prefix@ + describe(found@),
{
    let mut m = prefix;
    let d = found.describe();
    m.append(d.as_str());
    m
}

/// Reads a flags file's tokens.
pub struct Parser {
    tokens: Vec<Token>,
    pos: usize,
}

impl Parser {
    /// The tokens being parsed.
    pub closed spec fn toks(&self) -> Seq<TokenView> {
        tokens_view(self.tokens@)
    }

    /// The position of the next token.
    pub closed spec fn offset(&self) -> int {
        self.pos as int
    }

    pub closed spec fn wf(&self) -> bool {
        self.pos < self.tokens@.len()
    }

    pub fn new(tokens: Vec<Token>) -> (p: Parser)
        ensures
            p.toks() == tokens_view(tokens@),
            p.offset() == 0,
            tokens@.len() >= 1 ==> p.wf(),
    {
        Parser { tokens, pos: 0 }
    }

    fn peek(&self) -> (t: &Token)
        requires
            self.wf(),
        ensures
            t@ == self.toks()[self.offset()],
    {
        &self.tokens[self.pos]
    }

    fn advance(&mut self) -> (t: Token)
        requires
            old(self).wf(),
        ensures
            final(self).wf(),
            final(self).toks() == old(self).toks(),
            t@ == old(self).toks()[old(self).offset()],
            final(self).offset() == next(old(self).toks(), old(self).offset()),
    {
        let tok = self.tokens[self.pos].clone();
        if self.pos < self.tokens.len() - 1 {
            self.pos = self.pos + 1;
        }
        tok
    }

    fn expect(&mut self, kind: &TokenKind, context: &str) -> (r: Result<Token, SourceError>)
        requires
            old(self).wf(),
        ensures
            final(self).wf(),
            final(self).toks() == old(self).toks(),
            match expect_spec(old(self).toks(), old(self).offset(), kind@, context@) {
                Ok(q) => r is Ok && final(self).offset() == q,
                Err(e) => (r matches Err(err) && err@ == e),
            },
    {
        if exec_same_variant(&self.peek().kind, kind) {
            Ok(self.advance())
        } else {
            let tok = self.peek();
            let mut m = String::from_str("expected ");
            let d = kind.describe();
            m.append(d.as_str());
            m.append(" ");
            m.append(context);
            m.append(", found ");
            let m = message_found(m, &tok.kind);
            Err(SourceError::new(tok.line, tok.col, m))
        }
    }

    fn expect_ident(&mut self, expected: &str) -> (r: Result<(), SourceError>)
        requires
            old(self).wf(),
        ensures
            final(self).wf(),
            final(self).toks() == old(self).toks(),
            match expect_word_spec(old(self).toks(), old(self).offset(), expected@) {
                Ok(q) => r is Ok && final(self).offset() == q,
                Err(e) => (r matches Err(err) && err@ == e),
            },
    {
        if exec_is_word(&self.peek().kind, expected) {
            self.advance();
            Ok(())
        } else {
            let tok = self.peek();
            let mut m = String::from_str("expected `");
            m.append(expected);
            m.append("`, found ");
            let m = message_found(m, &tok.kind);
            Err(SourceError::new(tok.line, tok.col, m))
        }
    }

    fn parse_bool_word(&mut self) -> (r: Result<bool, SourceError>)
        requires
            old(self).wf(),
        ensures
            final(self).wf(),
            final(self).toks() == old(self).toks(),
            match bool_word_spec(old(self).toks(), old(self).offset()) {
                Ok((b, q)) => r == Ok::<bool, SourceError>(b) && final(self).offset() == q,
                Err(e) => (r matches Err(err) && err@ == e),
            },
    {
        let tok = self.advance();
        if exec_is_word(&tok.kind, "on") {
            Ok(true)
        } else if exec_is_word(&tok.kind, "off") {
            Ok(false)
        } else {
            let m = message_found(String::from_str("expected `on` or `off`, found "), &tok.kind);
            Err(SourceError::new(tok.line, tok.col, m))
        }
    }

    fn parse_value(&mut self) -> (r: Result<String, SourceError>)
        requires
            old(self).wf(),
        ensures
            final(self).wf(),
            final(self).toks() == old(self).toks(),
            match value_spec(old(self).toks(), old(self).offset()) {
                Ok((v, q)) => (r matches Ok(x) && x@ == v) && final(self).offset() == q,
                Err(e) => (r matches Err(err) && err@ == e),
            },
    {
        let tok = self.advance();
        match tok.kind {
            TokenKind::Str(s) => Ok(s),
            TokenKind::Ident(s) => Ok(s),
            other => {
                let m = message_found(String::from_str("expected a value, found "), &other);
                Err(SourceError::new(tok.line, tok.col, m))
            },
        }
    }

    fn parse_condition(&mut self) -> (r: Result<Condition, SourceError>)
        requires
            old(self).wf(),
        ensures
            final(self).wf(),
            final(self).toks() == old(self).toks(),
            match condition_spec(old(self).toks(), old(self).offset()) {
                Ok((c, q)) => (r matches Ok(x) && x@ == c) && final(self).offset() == q,
                Err(e) => (r matches Err(err) && err@ == e),
            },
    {
        let key_tok = self.advance();
        let key = match key_tok.kind {
            TokenKind::Ident(s) => s,
            other => {
                let m = message_found(String::from_str("expected a context key, found "), &other);
                return Err(SourceError::new(key_tok.line, key_tok.col, m));
            },
        };
        if exec_is_word(&self.peek().kind, "rollout") {
            self.advance();
            let value_tok = self.peek().clone();
            let value = match self.parse_value() {
                Ok(v) => v,
                Err(e) => {
                    return Err(e);
                },
            };
            if percentage_threshold(value.as_str()).is_none() {
                let mut m = String::from_str(
                    "expected a percentage from 0 to 100 after `rollout`, found `",
                );
                m.append(value.as_str());
                m.append("`");
                return Err(SourceError::new(value_tok.line, value_tok.col, m));
            }
            return match self.expect(&TokenKind::Percent, "after the percentage") {
                Ok(_) => Ok(Condition { key, value, op: Operator::Rollout }),
                Err(e) => Err(e),
            };
        }
        let op = match &self.peek().kind {
            TokenKind::Equal => Operator::Eq,
            TokenKind::NotEqual => Operator::NotEq,
            TokenKind::Lt => Operator::Lt,
            TokenKind::Le => Operator::Le,
            TokenKind::Gt => Operator::Gt,
            TokenKind::Ge => Operator::Ge,
            _ => {
                let tok = self.peek();
                let m = message_found(
                    String::from_str(
                        "expected `=`, `!=`, `<`, `<=`, `>` or `>=` after context key, found ",
                    ),
                    &tok.kind,
                );
                return Err(SourceError::new(tok.line, tok.col, m));
            },
        };
        self.advance();
        let value_tok = self.peek().clone();
        let value = match self.parse_value() {
            Ok(v) => v,
            Err(e) => {
                return Err(e);
            },
        };
        if op.is_numeric() && !parses_as_number(value.as_str()) {
            let mut m = String::from_str("expected a number after `");
            m.append(op.symbol());
            m.append("`, found `");
            m.append(value.as_str());
            m.append("`");
            return Err(SourceError::new(value_tok.line, value_tok.col, m));
        }
        Ok(Condition { key, value, op })
    }

    fn parse_and_group(&mut self) -> (r: Result<Vec<Condition>, SourceError>)
        requires
            old(self).wf(),
        ensures
            final(self).wf(),
            final(self).toks() == old(self).toks(),
            match and_group_spec(old(self).toks(), old(self).offset()) {
                Ok((cs, q)) => (r matches Ok(x) && clause_view(x@) == cs) && final(self).offset()
                    == q,
                Err(e) => (r matches Err(err) && err@ == e),
            },
    {
        let ghost ts = self.toks();
        let ghost target = and_group_spec(ts, self.offset());
        let first = match self.parse_condition() {
            Ok(c) => c,
            Err(e) => {
                return Err(e);
            },
        };
        let mut conditions = vec![first];
        assert(clause_view(conditions@) =~= seq![first@]);
        loop
            invariant
                self.wf(),
                self.toks() == ts,
                ts == old(self).toks(),
                target == and_group_spec(old(self).toks(), old(self).offset()),
                and_rest(ts, self.offset(), clause_view(conditions@)) == target,
            decreases ts.len() - self.offset(),
        {
            if exec_is_word(&self.peek().kind, "and") {
                let ghost p = self.offset();
                self.advance();
                proof {
                    lemma_next(ts, p);
                    lemma_condition(ts, next(ts, p));
                }
                match self.parse_condition() {
                    Ok(c) => {
                        let ghost before = clause_view(conditions@);
                        conditions.push(c);
                        assert(clause_view(conditions@) =~= before.push(c@));
                    },
                    Err(e) => {
                        return Err(e);
                    },
                }
            } else {
                return Ok(conditions);
            }
        }
    }

    fn parse_rule(&mut self) -> (r: Result<Rule, SourceError>)
        requires
            old(self).wf(),
        ensures
            final(self).wf(),
            final(self).toks() == old(self).toks(),
            match rule_spec(old(self).toks(), old(self).offset()) {
                Ok((v, q)) => (r matches Ok(x) && x@ == v) && final(self).offset() == q,
                Err(e) => (r matches Err(err) && err@ == e),
            },
    {
        let ghost ts = self.toks();
        let ghost target = rule_spec(ts, self.offset());
        match self.expect(&TokenKind::Colon, "after `rule`") {
            Ok(_) => {},
            Err(e) => {
                return Err(e);
            },
        }
        let effect = match self.parse_bool_word() {
            Ok(b) => b,
            Err(e) => {
                return Err(e);
            },
        };
        match self.expect_ident("if") {
            Ok(_) => {},
            Err(e) => {
                return Err(e);
            },
        }
        let first = match self.parse_and_group() {
            Ok(g) => g,
            Err(e) => {
                return Err(e);
            },
        };
        let mut clauses = vec![first];
        assert(clauses_view(clauses@) =~= seq![clause_view(first@)]);
        loop
            invariant
                self.wf(),
                self.toks() == ts,
                ts == old(self).toks(),
                target == rule_spec(old(self).toks(), old(self).offset()),
                match or_rest(ts, self.offset(), clauses_view(clauses@)) {
                    Ok((gs, q)) => target == Ok::<(RuleView, int), ErrorView>(
                        (RuleView { effect, clauses: gs }, q),
                    ),
                    Err(e) => target == Err::<(RuleView, int), ErrorView>(e),
                },
            decreases ts.len() - self.offset(),
        {
            if exec_is_word(&self.peek().kind, "or") {
                let ghost p = self.offset();
                self.advance();
                proof {
                    lemma_next(ts, p);
                    lemma_and_group(ts, next(ts, p));
                }
                match self.parse_and_group() {
                    Ok(g) => {
                        let ghost before = clauses_view(clauses@);
                        clauses.push(g);
                        assert(clauses_view(clauses@) =~= before.push(clause_view(g@)));
                    },
                    Err(e) => {
                        return Err(e);
                    },
                }
            } else {
                return Ok(Rule { effect, clauses });
            }
        }
    }

    fn parse_flag(&mut self) -> (r: Result<Flag, SourceError>)
        requires
            old(self).wf(),
        ensures
            final(self).wf(),
            final(self).toks() == old(self).toks(),
            match flag_spec(old(self).toks(), old(self).offset()) {
                Ok((v, q)) => (r matches Ok(x) && x@ == v) && final(self).offset() == q,
                Err(e) => (r matches Err(err) && err@ == e),
            },
    {
        let ghost ts = self.toks();
        let ghost target = flag_spec(ts, self.offset());
        match self.expect_ident("flag") {
            Ok(_) => {},
            Err(e) => {
                return Err(e);
            },
        }
        let name_tok = self.advance();
        let name = match name_tok.kind {
            TokenKind::Ident(s) => s,
            other => {
                let m = message_found(String::from_str("expected a flag name, found "), &other);
                return Err(SourceError::new(name_tok.line, name_tok.col, m));
            },
        };
        match self.expect(&TokenKind::LBrace, "after flag name") {
            Ok(_) => {},
            Err(e) => {
                return Err(e);
            },
        }
        match self.expect_ident("default") {
            Ok(_) => {},
            Err(e) => {
                return Err(e);
            },
        }
        match self.expect(&TokenKind::Colon, "after `default`") {
            Ok(_) => {},
            Err(e) => {
                return Err(e);
            },
        }
        let default = match self.parse_bool_word() {
            Ok(b) => b,
            Err(e) => {
                return Err(e);
            },
        };
        let ghost p6 = self.offset();
        let mut rules: Vec<Rule> = Vec::new();
        assert(rules_view(rules@) =~= Seq::empty());
        loop
            invariant
                self.wf(),
                self.toks() == ts,
                ts == old(self).toks(),
                target == flag_spec(old(self).toks(), old(self).offset()),
                match rules_spec(ts, self.offset(), rules_view(rules@)) {
                    Ok((rs, p7)) => match expect_spec(ts, p7, Lexeme::RBrace, "to close flag block"@) {
                        Ok(p8) => target == Ok::<(FlagView, int), ErrorView>(
                            (FlagView { name: name@, default, rules: rs }, p8),
                        ),
                        Err(e) => target == Err::<(FlagView, int), ErrorView>(e),
                    },
                    Err(e) => target == Err::<(FlagView, int), ErrorView>(e),
                },
            ensures
                self.wf(),
                self.toks() == ts,
                self.toks()[self.offset()].kind == Lexeme::RBrace,
                match expect_spec(ts, self.offset(), Lexeme::RBrace, "to close flag block"@) {
                    Ok(p8) => target == Ok::<(FlagView, int), ErrorView>(
                        (FlagView { name: name@, default, rules: rules_view(rules@) }, p8),
                    ),
                    Err(e) => target == Err::<(FlagView, int), ErrorView>(e),
                },
            decreases ts.len() - self.offset(),
        {
            if exec_is_word(&self.peek().kind, "rule") {
                let ghost p = self.offset();
                self.advance();
                proof {
                    lemma_next(ts, p);
                    lemma_rule(ts, next(ts, p));
                }
                match self.parse_rule() {
                    Ok(r) => {
                        let ghost before = rules_view(rules@);
                        rules.push(r);
                        assert(rules_view(rules@) =~= before.push(r@));
                    },
                    Err(e) => {
                        return Err(e);
                    },
                }
            } else {
                match &self.peek().kind {
                    TokenKind::RBrace => {
                        break;
                    },
                    other => {
                        let tok = self.peek();
                        let m = message_found(
                            String::from_str("expected `rule` or `}`, found "),
                            &tok.kind,
                        );
                        return Err(SourceError::new(tok.line, tok.col, m));
                    },
                }
            }
        }
        match self.expect(&TokenKind::RBrace, "to close flag block") {
            Ok(_) => {},
            Err(e) => {
                return Err(e);
            },
        }
        Ok(Flag { name, default, rules })
    }

    /// Reads every flag of the file.
    pub fn parse_file(self) -> (r: Result<Vec<Flag>, SourceError>)
        requires
            self.wf(),
        ensures
            match flags_spec(self.toks(), self.offset(), Seq::empty()) {
                Ok(fs) => (r matches Ok(x) && flags_view(x@) == fs),
                Err(e) => (r matches Err(err) && err@ == e),
            },
    {
        let mut ps = self;
        let ghost ts = ps.toks();
        let mut flags: Vec<Flag> = Vec::new();
        assert(flags_view(flags@) =~= Seq::empty());
        loop
            invariant
                ps.wf(),
                ps.toks() == ts,
                ts == self.toks(),
                flags_spec(ts, ps.offset(), flags_view(flags@)) == flags_spec(
                    ts,
                    self.offset(),
                    Seq::empty(),
                ),
            decreases ts.len() - ps.offset(),
        {
            if let TokenKind::Eof = &ps.peek().kind {
                return Ok(flags);
            }
            proof {
                lemma_flag(ts, ps.offset());
            }
            match ps.parse_flag() {
                Ok(f) => {
                    let ghost before = flags_view(flags@);
                    flags.push(f);
                    assert(flags_view(flags@) =~= before.push(f@));
                },
                Err(e) => {
                    return Err(e);
                },
            }
        }
    }
}


/// The flags of a source text, or the first error in it.
pub open spec fn parse_source_spec(cs: Seq<char>) -> Result<Seq<FlagView>, ErrorView> {
    match tokenize_spec(cs) {
        Ok(ts) => parse_spec(ts),
        Err(e) => Err(e),
    }
}

/// Tokenizes and parses the text of a flags file.
pub fn parse_flags(source: &str) -> (r: Result<Vec<Flag>, SourceError>)
    requires
        source@.len() < usize::MAX,
    ensures
        match parse_source_spec(source@) {
            Ok(fs) => (r matches Ok(x) && flags_view(x@) == fs),
            Err(e) => (r matches Err(err) && err@ == e),
        },
{
    let tokens = match Lexer::new(source).tokenize() {
        Ok(t) => t,
        Err(e) => {
            return Err(e);
        },
    };
    proof {
        law_tokens_end_with_eof(source@);
        assert(tokens_view(tokens@).len() == tokens@.len());
    }
    Parser::new(tokens).parse_file()
}


// ---------------------------------------------------------------------------
// What every parsed file satisfies

/// A numeric comparison's value is a number, and a rollout's a percentage.
pub open spec fn condition_ok(c: ConditionView) -> bool {
    &&& is_numeric(c.op) ==> is_number(c.value)
    &&& c.op == Operator::Rollout ==> is_percentage(c.value)
}

/// A clause has at least one condition, each of them well formed.
pub open spec fn clause_ok(cl: Seq<ConditionView>) -> bool {
    cl.len() >= 1 && forall|i: int| 0 <= i < cl.len() ==> condition_ok(#[trigger] cl[i])
}

/// A rule has at least one clause, each of them well formed.
pub open spec fn rule_ok(r: RuleView) -> bool {
    r.clauses.len() >= 1 && forall|j: int| 0 <= j < r.clauses.len() ==> clause_ok(
        #[trigger] r.clauses[j],
    )
}

pub open spec fn flag_ok(f: FlagView) -> bool {
    forall|i: int| 0 <= i < f.rules.len() ==> rule_ok(#[trigger] f.rules[i])
}

/// The error is located at one of the tokens.
pub open spec fn at_some_token(ts: Seq<TokenView>, e: ErrorView) -> bool {
    exists|k: int| 0 <= k < ts.len() && (#[trigger] ts[k]).line == e.line && ts[k].col == e.col
}

proof fn lemma_error_at_token(ts: Seq<TokenView>, k: int, m: Seq<char>)
    requires
        0 <= k < ts.len(),
    ensures
        at_some_token(ts, error_at_token(ts[k], m)),
{
    assert(ts[k].line == error_at_token(ts[k], m).line);
}

proof fn lemma_condition_sound(ts: Seq<TokenView>, p: int)
    requires
        0 <= p < ts.len(),
    ensures
        condition_spec(ts, p) matches Ok((c, q)) ==> condition_ok(c),
        condition_spec(ts, p) matches Err(e) ==> at_some_token(ts, e),
{
    let p1 = next(ts, p);
    let p2 = next(ts, p1);
    lemma_next(ts, p);
    lemma_next(ts, p1);
    if let Err(e) = condition_spec(ts, p) {
        if let Lexeme::Ident(key) = ts[p].kind {
            if let Some(op) = operator_of(ts[p1].kind) {
                if let Err(e2) = value_spec(ts, p2) {
                    lemma_error_at_token(ts, p2, "expected a value, found "@ + describe(ts[p2].kind));
                } else if let Ok((v, p3)) = value_spec(ts, p2) {
                    lemma_error_at_token(
                        ts,
                        p2,
                        "expected a number after `"@ + symbol(op) + "`, found `"@ + v + "`"@,
                    );
                }
            } else {
                lemma_error_at_token(
                    ts,
                    p1,
                    "expected `=`, `!=`, `<`, `<=`, `>` or `>=` after context key, found "@
                        + describe(ts[p1].kind),
                );
            }
        } else {
            lemma_error_at_token(ts, p, "expected a context key, found "@ + describe(ts[p].kind));
        }
    }
}

proof fn lemma_and_rest_sound(ts: Seq<TokenView>, p: int, acc: Seq<ConditionView>)
    requires
        0 <= p < ts.len(),
        forall|i: int| 0 <= i < acc.len() ==> condition_ok(#[trigger] acc[i]),
    ensures
        and_rest(ts, p, acc) matches Ok((cs, q)) ==> cs.len() >= acc.len() && forall|i: int|
            0 <= i < cs.len() ==> condition_ok(#[trigger] cs[i]),
        and_rest(ts, p, acc) matches Err(e) ==> at_some_token(ts, e),
    decreases ts.len() - p,
{
    if is_word(ts[p].kind, "and"@) {
        lemma_next(ts, p);
        lemma_condition(ts, next(ts, p));
        lemma_condition_sound(ts, next(ts, p));
        if let Ok((c, q)) = condition_spec(ts, next(ts, p)) {
            let acc2 = acc.push(c);
            assert forall|i: int| 0 <= i < acc2.len() implies condition_ok(#[trigger] acc2[i]) by {
                if i < acc.len() {
                    assert(acc2[i] == acc[i]);
                }
            }
            lemma_and_rest_sound(ts, q, acc2);
        }
    }
}

proof fn lemma_and_group_sound(ts: Seq<TokenView>, p: int)
    requires
        0 <= p < ts.len(),
    ensures
        and_group_spec(ts, p) matches Ok((cs, q)) ==> clause_ok(cs),
        and_group_spec(ts, p) matches Err(e) ==> at_some_token(ts, e),
{
    lemma_condition(ts, p);
    lemma_condition_sound(ts, p);
    if let Ok((c, q)) = condition_spec(ts, p) {
        lemma_and_rest_sound(ts, q, seq![c]);
    }
}

proof fn lemma_or_rest_sound(ts: Seq<TokenView>, p: int, acc: Seq<Seq<ConditionView>>)
    requires
        0 <= p < ts.len(),
        forall|i: int| 0 <= i < acc.len() ==> clause_ok(#[trigger] acc[i]),
    ensures
        or_rest(ts, p, acc) matches Ok((gs, q)) ==> gs.len() >= acc.len() && forall|i: int|
            0 <= i < gs.len() ==> clause_ok(#[trigger] gs[i]),
        or_rest(ts, p, acc) matches Err(e) ==> at_some_token(ts, e),
    decreases ts.len() - p,
{
    if is_word(ts[p].kind, "or"@) {
        lemma_next(ts, p);
        lemma_and_group(ts, next(ts, p));
        lemma_and_group_sound(ts, next(ts, p));
        if let Ok((g, q)) = and_group_spec(ts, next(ts, p)) {
            let acc2 = acc.push(g);
            assert forall|i: int| 0 <= i < acc2.len() implies clause_ok(#[trigger] acc2[i]) by {
                if i < acc.len() {
                    assert(acc2[i] == acc[i]);
                }
            }
            lemma_or_rest_sound(ts, q, acc2);
        }
    }
}

proof fn lemma_expect_sound(ts: Seq<TokenView>, p: int, k: Lexeme, context: Seq<char>)
    requires
        0 <= p < ts.len(),
    ensures
        expect_spec(ts, p, k, context) matches Err(e) ==> at_some_token(ts, e),
        expect_word_spec(ts, p, context) matches Err(e) ==> at_some_token(ts, e),
        bool_word_spec(ts, p) matches Err(e) ==> at_some_token(ts, e),
{
    lemma_error_at_token(
        ts,
        p,
        "expected "@ + describe(k) + " "@ + context + ", found "@ + describe(ts[p].kind),
    );
    lemma_error_at_token(ts, p, "expected `"@ + context + "`, found "@ + describe(ts[p].kind));
    lemma_error_at_token(ts, p, "expected `on` or `off`, found "@ + describe(ts[p].kind));
}

proof fn lemma_rule_sound(ts: Seq<TokenView>, p: int)
    requires
        0 <= p < ts.len(),
    ensures
        rule_spec(ts, p) matches Ok((r, q)) ==> rule_ok(r),
        rule_spec(ts, p) matches Err(e) ==> at_some_token(ts, e),
{
    lemma_expect_sound(ts, p, Lexeme::Colon, "after `rule`"@);
    if let Ok(p1) = expect_spec(ts, p, Lexeme::Colon, "after `rule`"@) {
        lemma_next(ts, p);
        lemma_expect_sound(ts, p1, Lexeme::Colon, "if"@);
        if let Ok((effect, p2)) = bool_word_spec(ts, p1) {
            lemma_next(ts, p1);
            lemma_expect_sound(ts, p2, Lexeme::Colon, "if"@);
            if let Ok(p3) = expect_word_spec(ts, p2, "if"@) {
                lemma_next(ts, p2);
                lemma_and_group(ts, p3);
                lemma_and_group_sound(ts, p3);
                if let Ok((g, p4)) = and_group_spec(ts, p3) {
                    lemma_or_rest_sound(ts, p4, seq![g]);
                }
            }
        }
    }
}

proof fn lemma_rules_sound(ts: Seq<TokenView>, p: int, acc: Seq<RuleView>)
    requires
        0 <= p < ts.len(),
        forall|i: int| 0 <= i < acc.len() ==> rule_ok(#[trigger] acc[i]),
    ensures
        rules_spec(ts, p, acc) matches Ok((rs, q)) ==> forall|i: int|
            0 <= i < rs.len() ==> rule_ok(#[trigger] rs[i]),
        rules_spec(ts, p, acc) matches Err(e) ==> at_some_token(ts, e),
    decreases ts.len() - p,
{
    if is_word(ts[p].kind, "rule"@) {
        lemma_next(ts, p);
        lemma_rule(ts, next(ts, p));
        lemma_rule_sound(ts, next(ts, p));
        if let Ok((r, q)) = rule_spec(ts, next(ts, p)) {
            let acc2 = acc.push(r);
            assert forall|i: int| 0 <= i < acc2.len() implies rule_ok(#[trigger] acc2[i]) by {
                if i < acc.len() {
                    assert(acc2[i] == acc[i]);
                }
            }
            lemma_rules_sound(ts, q, acc2);
        }
    } else if ts[p].kind != Lexeme::RBrace {
        lemma_error_at_token(ts, p, "expected `rule` or `}`, found "@ + describe(ts[p].kind));
    }
}

proof fn lemma_flag_sound(ts: Seq<TokenView>, p: int)
    requires
        0 <= p < ts.len(),
    ensures
        flag_spec(ts, p) matches Ok((f, q)) ==> flag_ok(f),
        flag_spec(ts, p) matches Err(e) ==> at_some_token(ts, e),
{
    let p1 = next(ts, p);
    let p2 = next(ts, p1);
    let p3 = next(ts, p2);
    let p4 = next(ts, p3);
    let p5 = next(ts, p4);
    let p6 = next(ts, p5);
    lemma_next(ts, p);
    lemma_next(ts, p1);
    lemma_next(ts, p2);
    lemma_next(ts, p3);
    lemma_next(ts, p4);
    lemma_next(ts, p5);
    lemma_expect_sound(ts, p, Lexeme::Colon, "flag"@);
    lemma_error_at_token(ts, p1, "expected a flag name, found "@ + describe(ts[p1].kind));
    lemma_expect_sound(ts, p2, Lexeme::LBrace, "after flag name"@);
    lemma_expect_sound(ts, p3, Lexeme::Colon, "default"@);
    lemma_expect_sound(ts, p4, Lexeme::Colon, "after `default`"@);
    lemma_expect_sound(ts, p5, Lexeme::Colon, "x"@);
    lemma_rules(ts, p6, Seq::empty());
    lemma_rules_sound(ts, p6, Seq::empty());
    if let Ok((rules, p7)) = rules_spec(ts, p6, Seq::empty()) {
        lemma_expect_sound(ts, p7, Lexeme::RBrace, "to close flag block"@);
    }
}

proof fn lemma_flags_sound(ts: Seq<TokenView>, p: int, acc: Seq<FlagView>)
    requires
        0 <= p < ts.len(),
        forall|i: int| 0 <= i < acc.len() ==> flag_ok(#[trigger] acc[i]),
    ensures
        flags_spec(ts, p, acc) matches Ok(fs) ==> forall|i: int|
            0 <= i < fs.len() ==> flag_ok(#[trigger] fs[i]),
        flags_spec(ts, p, acc) matches Err(e) ==> at_some_token(ts, e),
    decreases ts.len() - p,
{
    if ts[p].kind != Lexeme::Eof {
        lemma_flag(ts, p);
        lemma_flag_sound(ts, p);
        if let Ok((f, q)) = flag_spec(ts, p) {
            let acc2 = acc.push(f);
            assert forall|i: int| 0 <= i < acc2.len() implies flag_ok(#[trigger] acc2[i]) by {
                if i < acc.len() {
                    assert(acc2[i] == acc[i]);
                }
            }
            lemma_flags_sound(ts, q, acc2);
        }
    }
}

/// Every rule of a parsed file has at least one clause, every clause at least
/// one condition, the value of every numeric comparison is a number and that
/// of every rollout a percentage from 0 to 100; an error points at one of the
/// tokens.
pub proof fn law_parsed_flags_well_formed(ts: Seq<TokenView>)
    requires
        ts.len() >= 1,
    ensures
        parse_spec(ts) matches Ok(fs) ==> forall|i: int| 0 <= i < fs.len() ==> flag_ok(#[trigger] fs[i]),
        parse_spec(ts) matches Err(e) ==> at_some_token(ts, e),
{
    lemma_flags_sound(ts, 0, Seq::empty());
}

/// A flags file that parses is well formed (see `flag_ok`), and the error of
/// one that does not stands at a 1-based line and column.
pub proof fn law_parse_source(cs: Seq<char>)
    ensures
        parse_source_spec(cs) matches Ok(fs) ==> forall|i: int|
            0 <= i < fs.len() ==> flag_ok(#[trigger] fs[i]),
        parse_source_spec(cs) matches Err(e) ==> error_placed(e),
{
    law_positions_one_based(cs);
    law_tokens_end_with_eof(cs);
    if let Ok(ts) = tokenize_spec(cs) {
        law_parsed_flags_well_formed(ts);
        if let Err(e) = parse_spec(ts) {
            let k = choose|k: int| 0 <= k < ts.len() && (#[trigger] ts[k]).line == e.line && ts[k].col == e.col;
            assert(placed(ts[k]));
        }
    }
}

// ---------------------------------------------------------------------------
// How `and` and `or` join

proof fn lemma_and_rest_prefix(ts: Seq<TokenView>, p: int, acc: Seq<ConditionView>)
    ensures
        match and_rest(ts, p, Seq::empty()) {
            Ok((cs, q)) => and_rest(ts, p, acc) == Ok::<(Seq<ConditionView>, int), ErrorView>(
                (acc + cs, q),
            ),
            Err(e) => and_rest(ts, p, acc) == Err::<(Seq<ConditionView>, int), ErrorView>(e),
        },
        and_rest(ts, p, acc) matches Ok((_, q)) ==> !is_word(ts[q].kind, "and"@),
    decreases ts.len() - p,
{
    if is_word(ts[p].kind, "and"@) {
        lemma_next(ts, p);
        lemma_condition(ts, next(ts, p));
        if let Ok((c, q)) = condition_spec(ts, next(ts, p)) {
            lemma_and_rest_prefix(ts, q, acc.push(c));
            lemma_and_rest_prefix(ts, q, seq![c]);
            lemma_and_rest_prefix(ts, q, Seq::empty());
            if let Ok((cs, r)) = and_rest(ts, q, Seq::empty()) {
                assert(Seq::<ConditionView>::empty().push(c) == seq![c]);
                assert(acc.push(c) + cs =~= acc + (seq![c] + cs));
            }
        }
    } else {
        assert(acc + Seq::<ConditionView>::empty() =~= acc);
    }
}

/// Conditions joined by `and` read as one group: a condition, and, where an
/// `and` follows it, the group after that `and`; a group ends only before a
/// token that is not `and`.
pub proof fn law_and_group(ts: Seq<TokenView>, p: int)
    ensures
        and_group_spec(ts, p) == match condition_spec(ts, p) {
            Ok((c, q)) => if is_word(ts[q].kind, "and"@) {
                match and_group_spec(ts, next(ts, q)) {
                    Ok((cs, r)) => Ok((seq![c] + cs, r)),
                    Err(e) => Err(e),
                }
            } else {
                Ok((seq![c], q))
            },
            Err(e) => Err(e),
        },
        and_group_spec(ts, p) matches Ok((_, q)) ==> !is_word(ts[q].kind, "and"@),
{
    if let Ok((c, q)) = condition_spec(ts, p) {
        lemma_and_rest_prefix(ts, q, seq![c]);
        if is_word(ts[q].kind, "and"@) {
            if let Ok((c2, q2)) = condition_spec(ts, next(ts, q)) {
                lemma_and_rest_prefix(ts, q2, seq![c, c2]);
                lemma_and_rest_prefix(ts, q2, seq![c2]);
                assert(seq![c].push(c2) == seq![c, c2]);
                if let Ok((cs, r)) = and_rest(ts, q2, Seq::empty()) {
                    assert(seq![c, c2] + cs =~= seq![c] + (seq![c2] + cs));
                }
            }
        }
    }
}

proof fn lemma_or_rest_prefix(ts: Seq<TokenView>, p: int, acc: Seq<Seq<ConditionView>>)
    ensures
        match or_rest(ts, p, Seq::empty()) {
            Ok((gs, q)) => or_rest(ts, p, acc) == Ok::<(Seq<Seq<ConditionView>>, int), ErrorView>(
                (acc + gs, q),
            ),
            Err(e) => or_rest(ts, p, acc) == Err::<(Seq<Seq<ConditionView>>, int), ErrorView>(e),
        },
        or_rest(ts, p, acc) matches Ok((_, q)) ==> !is_word(ts[q].kind, "or"@),
    decreases ts.len() - p,
{
    if is_word(ts[p].kind, "or"@) {
        lemma_next(ts, p);
        lemma_and_group(ts, next(ts, p));
        if let Ok((g, q)) = and_group_spec(ts, next(ts, p)) {
            lemma_or_rest_prefix(ts, q, acc.push(g));
            lemma_or_rest_prefix(ts, q, seq![g]);
            lemma_or_rest_prefix(ts, q, Seq::empty());
            if let Ok((gs, r)) = or_rest(ts, q, Seq::empty()) {
                assert(Seq::<Seq<ConditionView>>::empty().push(g) == seq![g]);
                assert(acc.push(g) + gs =~= acc + (seq![g] + gs));
            }
        }
    } else {
        assert(acc + Seq::<Seq<ConditionView>>::empty() =~= acc);
    }
}

/// The groups of a rule's condition, joined by `or`: one group and, where an
/// `or` follows it, the groups after that `or`; they end only before a token
/// that is not `or`.
pub proof fn law_or_groups(ts: Seq<TokenView>, p: int, g: Seq<ConditionView>)
    ensures
        or_rest(ts, p, seq![g]) == if is_word(ts[p].kind, "or"@) {
            match and_group_spec(ts, next(ts, p)) {
                Ok((g2, q)) => match or_rest(ts, q, seq![g2]) {
                    Ok((gs, r)) => Ok((seq![g] + gs, r)),
                    Err(e) => Err(e),
                },
                Err(e) => Err(e),
            }
        } else {
            Ok((seq![g], p))
        },
        or_rest(ts, p, seq![g]) matches Ok((_, q)) ==> !is_word(ts[q].kind, "or"@),
{
    lemma_or_rest_prefix(ts, p, seq![g]);
    if is_word(ts[p].kind, "or"@) {
        if let Ok((g2, q)) = and_group_spec(ts, next(ts, p)) {
            lemma_or_rest_prefix(ts, q, seq![g, g2]);
            lemma_or_rest_prefix(ts, q, seq![g2]);
            assert(seq![g].push(g2) == seq![g, g2]);
            if let Ok((gs, r)) = or_rest(ts, q, Seq::empty()) {
                assert(seq![g, g2] + gs =~= seq![g] + (seq![g2] + gs));
            }
        }
    }
}

} // verus!
