use vstd::prelude::*;
use vstd::string::StringExecFns;
use crate::error::{ErrorView, SourceError};
use crate::text::{char_is_alphanumeric, char_is_whitespace, chars_of, is_alphanumeric, is_whitespace, push_char};

verus! {

#[derive(Debug, PartialEq)]
pub enum TokenKind {
    Ident(String),
    Str(String),
    LBrace,
    RBrace,
    Colon,
    Equal,
    NotEqual,
    Lt,
    Le,
    Gt,
    Ge,
    Percent,
    Eof,
}

#[derive(Debug)]
pub struct Token {
    pub kind: TokenKind,
    pub line: usize,
    pub col: usize,
}

/// The kind of a token, with its text as a sequence of characters.
pub enum Lexeme {
    Ident(Seq<char>),
    Str(Seq<char>),
    LBrace,
    RBrace,
    Colon,
    Equal,
    NotEqual,
    Lt,
    Le,
    Gt,
    Ge,
    Percent,
    Eof,
}

/// A token as a value: its kind and the line and column where it starts.
pub struct TokenView {
    pub kind: Lexeme,
    pub line: nat,
    pub col: nat,
}

impl View for TokenKind {
    type V = Lexeme;

    open spec fn view(&self) -> Lexeme {
        match self {
            TokenKind::Ident(s) => Lexeme::Ident(s@),
            TokenKind::Str(s) => Lexeme::Str(s@),
            TokenKind::LBrace => Lexeme::LBrace,
            TokenKind::RBrace => Lexeme::RBrace,
            TokenKind::Colon => Lexeme::Colon,
            TokenKind::Equal => Lexeme::Equal,
            TokenKind::NotEqual => Lexeme::NotEqual,
            TokenKind::Lt => Lexeme::Lt,
            TokenKind::Le => Lexeme::Le,
            TokenKind::Gt => Lexeme::Gt,
            TokenKind::Ge => Lexeme::Ge,
            TokenKind::Percent => Lexeme::Percent,
            TokenKind::Eof => Lexeme::Eof,
        }
    }
}

impl View for Token {
    type V = TokenView;

    open spec fn view(&self) -> TokenView {
        TokenView { kind: self.kind@, line: self.line as nat, col: self.col as nat }
    }
}

impl Clone for TokenKind {
    fn clone(&self) -> (r: TokenKind)
        ensures
            r == *self,
    {
        match self {
            TokenKind::Ident(s) => TokenKind::Ident(s.clone()),
            TokenKind::Str(s) => TokenKind::Str(s.clone()),
            TokenKind::LBrace => TokenKind::LBrace,
            TokenKind::RBrace => TokenKind::RBrace,
            TokenKind::Colon => TokenKind::Colon,
            TokenKind::Equal => TokenKind::Equal,
            TokenKind::NotEqual => TokenKind::NotEqual,
            TokenKind::Lt => TokenKind::Lt,
            TokenKind::Le => TokenKind::Le,
            TokenKind::Gt => TokenKind::Gt,
            TokenKind::Ge => TokenKind::Ge,
            TokenKind::Percent => TokenKind::Percent,
            TokenKind::Eof => TokenKind::Eof,
        }
    }
}

impl Clone for Token {
    fn clone(&self) -> (r: Token)
        ensures
            r == *self,
    {
        Token { kind: self.kind.clone(), line: self.line, col: self.col }
    }
}

/// How a token kind is named in messages.
pub open spec fn describe(k: Lexeme) -> Seq<char> {
    match k {
        Lexeme::Ident(s) => "`"@ + s + "`"@,
        Lexeme::Str(s) => "\""@ + s + "\""@,
        Lexeme::LBrace => "`{`"@,
        Lexeme::RBrace => "`}`"@,
        Lexeme::Colon => "`:`"@,
        Lexeme::Equal => "`=`"@,
        Lexeme::NotEqual => "`!=`"@,
        Lexeme::Lt => "`<`"@,
        Lexeme::Le => "`<=`"@,
        Lexeme::Gt => "`>`"@,
        Lexeme::Ge => "`>=`"@,
        Lexeme::Percent => "`%`"@,
        Lexeme::Eof => "end of file"@,
    }
}

impl TokenKind {
    pub fn describe(&self) -> (r: String)
        ensures
            r@ == describe(self@),
    {
        match self {
            TokenKind::Ident(s) => {
                let mut r = String::from_str("`");
                r.append(s.as_str());
                r.append("`");
                r
            },
            TokenKind::Str(s) => {
                let mut r = String::from_str("\"");
                r.append(s.as_str());
                r.append("\"");
                r
            },
            TokenKind::LBrace => String::from_str("`{`"),
            TokenKind::RBrace => String::from_str("`}`"),
            TokenKind::Colon => String::from_str("`:`"),
            TokenKind::Equal => String::from_str("`=`"),
            TokenKind::NotEqual => String::from_str("`!=`"),
            TokenKind::Lt => String::from_str("`<`"),
            TokenKind::Le => String::from_str("`<=`"),
            TokenKind::Gt => String::from_str("`>`"),
            TokenKind::Ge => String::from_str("`>=`"),
            TokenKind::Percent => String::from_str("`%`"),
            TokenKind::Eof => String::from_str("end of file"),
        }
    }
}

// ---------------------------------------------------------------------------
// The token grammar, as functions of the source's characters.

/// An ASCII letter or digit.
pub open spec fn ascii_alphanumeric(c: char) -> bool {
    0x30 <= (c as u32) <= 0x39 || 0x41 <= (c as u32) <= 0x5a || 0x61 <= (c as u32) <= 0x7a
}

/// Characters that may make up an identifier: letters and digits (among
/// ASCII characters, `A`-`Z`, `a`-`z` and `0`-`9`), `-` and `_`.
pub open spec fn identifier_char(c: char) -> bool {
    if (c as u32) < 0x80 {
        ascii_alphanumeric(c) || c == '-' || c == '_'
    } else {
        is_alphanumeric(c)
    }
}

pub fn is_ident_char(c: char) -> (r: bool)
    ensures
        r == identifier_char(c),
{
    char_is_alphanumeric(c) || c == '-' || c == '_'
}

/// The 1-based line and column of position `p` of `cs`.
pub open spec fn position(cs: Seq<char>, p: int) -> (nat, nat)
    decreases p,
{
    if p <= 0 {
        (1, 1)
    } else {
        let lc = position(cs, p - 1);
        if cs[p - 1] == '\n' {
            (lc.0 + 1, 1)
        } else {
            (lc.0, lc.1 + 1)
        }
    }
}

/// Where the whitespace and `#` comments starting at `p` end; `in_comment`
/// says that `p` lies inside a comment.
pub open spec fn trivia_end(cs: Seq<char>, p: int, in_comment: bool) -> int
    decreases cs.len() - p, (if in_comment { 1int } else { 0int }),
{
    if p >= cs.len() {
        p
    } else if in_comment {
        if cs[p] == '\n' {
            trivia_end(cs, p, false)
        } else {
            trivia_end(cs, p + 1, true)
        }
    } else if is_whitespace(cs[p]) {
        trivia_end(cs, p + 1, false)
    } else if cs[p] == '#' {
        trivia_end(cs, p + 1, true)
    } else {
        p
    }
}

/// Where the run of identifier characters starting at `p` ends.
pub open spec fn ident_end(cs: Seq<char>, p: int) -> int
    decreases cs.len() - p,
{
    if p < cs.len() && identifier_char(cs[p]) {
        ident_end(cs, p + 1)
    } else {
        p
    }
}

/// The outcome of reading the body of a string literal.
pub enum StrScan {
    /// The literal's value, and the position just after its closing quote.
    Closed(Seq<char>, int),
    Unterminated,
    /// An escape of this character, and the position just after it.
    BadEscape(char, int),
}

/// Reads a string literal's body from `p`, having read `acc` so far.
pub open spec fn scan_string(cs: Seq<char>, p: int, acc: Seq<char>) -> StrScan
    decreases cs.len() - p,
{
    if p >= cs.len() || p < 0 {
        StrScan::Unterminated
    } else if cs[p] == '"' {
        StrScan::Closed(acc, p + 1)
    } else if cs[p] == '\\' {
        if p + 1 >= cs.len() {
            StrScan::Unterminated
        } else if cs[p + 1] == '"' {
            scan_string(cs, p + 2, acc.push('"'))
        } else if cs[p + 1] == '\\' {
            scan_string(cs, p + 2, acc.push('\\'))
        } else if cs[p + 1] == 'n' {
            scan_string(cs, p + 2, acc.push('\n'))
        } else {
            StrScan::BadEscape(cs[p + 1], p + 2)
        }
    } else {
        scan_string(cs, p + 1, acc.push(cs[p]))
    }
}

pub open spec fn token_at(cs: Seq<char>, p: int, kind: Lexeme) -> TokenView {
    TokenView { kind, line: position(cs, p).0, col: position(cs, p).1 }
}

pub open spec fn error_at(line: nat, col: nat, message: Seq<char>) -> ErrorView {
    ErrorView { line, col, message }
}

pub proof fn lemma_trivia_end(cs: Seq<char>, p: int, in_comment: bool)
    ensures
        trivia_end(cs, p, in_comment) >= p,
        p <= cs.len() ==> trivia_end(cs, p, in_comment) <= cs.len(),
        trivia_end(cs, p, in_comment) < cs.len() ==> {
            let q = trivia_end(cs, p, in_comment);
            !is_whitespace(cs[q]) && cs[q] != '#'
        },
    decreases cs.len() - p, (if in_comment { 1int } else { 0int }),
{
    if p >= cs.len() {
    } else if in_comment {
        if cs[p] == '\n' {
            lemma_trivia_end(cs, p, false);
        } else {
            lemma_trivia_end(cs, p + 1, true);
        }
    } else if is_whitespace(cs[p]) {
        lemma_trivia_end(cs, p + 1, false);
    } else if cs[p] == '#' {
        lemma_trivia_end(cs, p + 1, true);
    }
}

pub proof fn lemma_ident_end(cs: Seq<char>, p: int)
    ensures
        ident_end(cs, p) >= p,
        p <= cs.len() ==> ident_end(cs, p) <= cs.len(),
        p < cs.len() && identifier_char(cs[p]) ==> ident_end(cs, p) > p,
    decreases cs.len() - p,
{
    if p < cs.len() && identifier_char(cs[p]) {
        lemma_ident_end(cs, p + 1);
    }
}

pub proof fn lemma_scan_string(cs: Seq<char>, p: int, acc: Seq<char>)
    ensures
        scan_string(cs, p, acc) matches StrScan::Closed(_, e) ==> p < e <= cs.len(),
        scan_string(cs, p, acc) matches StrScan::BadEscape(_, e) ==> p < e <= cs.len(),
    decreases cs.len() - p,
{
    if p >= cs.len() || p < 0 {
    } else if cs[p] == '"' {
    } else if cs[p] == '\\' {
        if p + 1 >= cs.len() {
        } else if cs[p + 1] == '"' {
            lemma_scan_string(cs, p + 2, acc.push('"'));
        } else if cs[p + 1] == '\\' {
            lemma_scan_string(cs, p + 2, acc.push('\\'));
        } else if cs[p + 1] == 'n' {
            lemma_scan_string(cs, p + 2, acc.push('\n'));
        }
    } else {
        lemma_scan_string(cs, p + 1, acc.push(cs[p]));
    }
}

/// The token that starts at `q`, a character that is neither whitespace nor a
/// comment, and the position after it; or the error found there.
pub open spec fn next_token(cs: Seq<char>, q: int) -> Result<(Lexeme, int), ErrorView> {
    let line = position(cs, q).0;
    let col = position(cs, q).1;
    let c = cs[q];
    if c == '{' {
        Ok((Lexeme::LBrace, q + 1))
    } else if c == '}' {
        Ok((Lexeme::RBrace, q + 1))
    } else if c == ':' {
        Ok((Lexeme::Colon, q + 1))
    } else if c == '%' {
        Ok((Lexeme::Percent, q + 1))
    } else if c == '=' {
        Ok((Lexeme::Equal, q + 1))
    } else if c == '!' {
        if q + 1 < cs.len() && cs[q + 1] == '=' {
            Ok((Lexeme::NotEqual, q + 2))
        } else {
            Err(error_at(line, col, "expected `=` after `!`"@))
        }
    } else if c == '<' {
        if q + 1 < cs.len() && cs[q + 1] == '=' {
            Ok((Lexeme::Le, q + 2))
        } else {
            Ok((Lexeme::Lt, q + 1))
        }
    } else if c == '>' {
        if q + 1 < cs.len() && cs[q + 1] == '=' {
            Ok((Lexeme::Ge, q + 2))
        } else {
            Ok((Lexeme::Gt, q + 1))
        }
    } else if c == '"' {
        match scan_string(cs, q + 1, Seq::empty()) {
            StrScan::Closed(s, e) => Ok((Lexeme::Str(s), e)),
            StrScan::Unterminated => Err(error_at(line, col, "unterminated string literal"@)),
            StrScan::BadEscape(x, e) => {
                let lc = position(cs, e - 1);
                Err(error_at(lc.0, lc.1, "unknown escape sequence '\\"@.push(x) + "'"@))
            },
        }
    } else if identifier_char(c) {
        let e = ident_end(cs, q);
        Ok((Lexeme::Ident(cs.subrange(q, e)), e))
    } else {
        Err(error_at(line, col, "unexpected character '"@.push(c) + "'"@))
    }
}

pub proof fn lemma_next_token(cs: Seq<char>, q: int)
    requires
        0 <= q < cs.len(),
    ensures
        next_token(cs, q) matches Ok((k, e)) ==> q < e <= cs.len() && k != Lexeme::Eof,
{
    lemma_scan_string(cs, q + 1, Seq::empty());
    lemma_ident_end(cs, q);
}

/// Tokenizes `cs` from position `p`, after the tokens `acc`.
pub open spec fn lex_from(cs: Seq<char>, p: int, acc: Seq<TokenView>) -> Result<
    Seq<TokenView>,
    ErrorView,
>
    decreases cs.len() - p,
{
    let q = trivia_end(cs, p, false);
    proof {
        lemma_trivia_end(cs, p, false);
    }
    if q >= cs.len() || q < 0 {
        Ok(acc.push(token_at(cs, q, Lexeme::Eof)))
    } else {
        match next_token(cs, q) {
            Ok((k, e)) => {
                proof {
                    lemma_next_token(cs, q);
                }
                lex_from(cs, e, acc.push(token_at(cs, q, k)))
            },
            Err(err) => Err(err),
        }
    }
}

/// The tokens of a source text, or the first error in it.
pub open spec fn tokenize_spec(cs: Seq<char>) -> Result<Seq<TokenView>, ErrorView> {
    lex_from(cs, 0, Seq::empty())
}

pub proof fn lemma_position_bounds(cs: Seq<char>, p: int)
    requires
        0 <= p,
    ensures
        1 <= position(cs, p).0 <= p + 1,
        1 <= position(cs, p).1 <= p + 1,
    decreases p,
{
    if p > 0 {
        lemma_position_bounds(cs, p - 1);
    }
}

/// The tokens of a lexing result, as values.
pub open spec fn tokens_view(v: Seq<Token>) -> Seq<TokenView> {
    v.map_values(|t: Token| t@)
}

/// A lexing result, as values.
pub open spec fn lexed(r: Result<Vec<Token>, SourceError>) -> Result<Seq<TokenView>, ErrorView> {
    match r {
        Ok(v) => Ok(tokens_view(v@)),
        Err(e) => Err(e@),
    }
}

/// Turns the characters of a source text into tokens, keeping track of the
/// line and column it has reached.
pub struct Lexer {
    chars: Vec<char>,
    pos: usize,
    line: usize,
    col: usize,
}

impl Lexer {
    /// The characters being tokenized.
    pub closed spec fn text(&self) -> Seq<char> {
        self.chars@
    }

    /// How many characters have been consumed.
    pub closed spec fn offset(&self) -> int {
        self.pos as int
    }

    pub closed spec fn wf(&self) -> bool {
        &&& self.chars@.len() < usize::MAX
        &&& self.pos <= self.chars@.len()
        &&& position(self.chars@, self.pos as int) == (self.line as nat, self.col as nat)
    }

    pub fn new(source: &str) -> (l: Lexer)
        requires
            source@.len() < usize::MAX,
        ensures
            l.wf(),
            l.text() == source@,
            l.offset() == 0,
    {
        Lexer { chars: chars_of(source), pos: 0, line: 1, col: 1 }
    }

    fn peek(&self) -> (r: Option<char>)
        requires
            self.wf(),
        ensures
            r == (if self.pos < self.chars@.len() {
                Some(self.chars@[self.pos as int])
            } else {
                None::<char>
            }),
    {
        if self.pos < self.chars.len() {
            Some(self.chars[self.pos])
        } else {
            None
        }
    }

    fn advance(&mut self) -> (r: Option<char>)
        requires
            old(self).wf(),
        ensures
            final(self).wf(),
            final(self).chars@ == old(self).chars@,
            old(self).pos < old(self).chars@.len() ==> final(self).pos == old(self).pos + 1 && r
                == Some(old(self).chars@[old(self).pos as int]),
            old(self).pos >= old(self).chars@.len() ==> final(self).pos == old(self).pos && r
                == None::<char>,
    {
        let c = match self.peek() {
            Some(c) => c,
            None => {
                return None;
            },
        };
        proof {
            lemma_position_bounds(self.chars@, self.pos as int);
        }
        self.pos = self.pos + 1;
        if c == '\n' {
            self.line = self.line + 1;
            self.col = 1;
        } else {
            self.col = self.col + 1;
        }
        Some(c)
    }

    fn skip_trivia(&mut self)
        requires
            old(self).wf(),
        ensures
            final(self).wf(),
            final(self).chars@ == old(self).chars@,
            final(self).pos == trivia_end(old(self).chars@, old(self).pos as int, false),
    {
        let ghost target = trivia_end(self.chars@, self.pos as int, false);
        let ghost cs = self.chars@;
        loop
            invariant
                self.wf(),
                self.chars@ == cs,
                trivia_end(cs, self.pos as int, false) == target,
            ensures
                self.wf(),
                self.chars@ == cs,
                self.pos == target,
            decreases cs.len() - self.pos,
        {
            match self.peek() {
                Some(c) => {
                    if char_is_whitespace(c) {
                        self.advance();
                    } else if c == '#' {
                        let ghost before = self.pos;
                        self.advance();
                        loop
                            invariant
                                self.wf(),
                                self.chars@ == cs,
                                self.pos > before,
                                trivia_end(cs, self.pos as int, true) == target,
                            ensures
                                self.wf(),
                                self.chars@ == cs,
                                self.pos > before,
                                trivia_end(cs, self.pos as int, false) == target,
                            decreases cs.len() - self.pos,
                        {
                            match self.peek() {
                                Some(c) => {
                                    if c == '\n' {
                                        break;
                                    }
                                    self.advance();
                                },
                                None => {
                                    break;
                                },
                            }
                        }
                    } else {
                        break;
                    }
                },
                None => {
                    break;
                },
            }
        }
    }

    fn read_ident(&mut self) -> (k: TokenKind)
        requires
            old(self).wf(),
        ensures
            final(self).wf(),
            final(self).chars@ == old(self).chars@,
            final(self).pos == ident_end(old(self).chars@, old(self).pos as int),
            k@ == Lexeme::Ident(
                old(self).chars@.subrange(old(self).pos as int, final(self).pos as int),
            ),
    {
        let ghost cs = self.chars@;
        let ghost start = self.pos as int;
        let mut s = String::new();
        loop
            invariant
                self.wf(),
                self.chars@ == cs,
                0 <= start <= self.pos,
                ident_end(cs, self.pos as int) == ident_end(cs, start),
                s@ == cs.subrange(start, self.pos as int),
            ensures
                self.wf(),
                self.chars@ == cs,
                self.pos == ident_end(cs, start),
                s@ == cs.subrange(start, self.pos as int),
            decreases cs.len() - self.pos,
        {
            match self.peek() {
                Some(c) => {
                    if is_ident_char(c) {
                        let ghost p = self.pos as int;
                        push_char(&mut s, c);
                        self.advance();
                        assert(cs.subrange(start, p + 1) =~= cs.subrange(start, p).push(cs[p]));
                    } else {
                        break;
                    }
                },
                None => {
                    break;
                },
            }
        }
        TokenKind::Ident(s)
    }

    fn read_string(&mut self, start_line: usize, start_col: usize) -> (r: Result<
        TokenKind,
        SourceError,
    >)
        requires
            old(self).wf(),
            old(self).pos < old(self).chars@.len(),
            old(self).chars@[old(self).pos as int] == '"',
        ensures
            final(self).wf(),
            final(self).chars@ == old(self).chars@,
            match scan_string(old(self).chars@, old(self).pos + 1, Seq::empty()) {
                StrScan::Closed(v, e) => (r matches Ok(k) && k@ == Lexeme::Str(v))
                    && final(self).pos == e,
                StrScan::Unterminated => (r matches Err(err) && err@ == error_at(
                    start_line as nat,
                    start_col as nat,
                    "unterminated string literal"@,
                )),
                StrScan::BadEscape(x, e) => (r matches Err(err) && err@ == error_at(
                    position(old(self).chars@, e - 1).0,
                    position(old(self).chars@, e - 1).1,
                    "unknown escape sequence '\\"@.push(x) + "'"@,
                )),
            },
    {
        let ghost cs = self.chars@;
        let ghost target = scan_string(cs, self.pos + 1, Seq::empty());
        self.advance();
        let mut s = String::new();
        loop
            invariant
                self.wf(),
                self.chars@ == cs,
                scan_string(cs, self.pos as int, s@) == target,
                cs == old(self).chars@,
                target == scan_string(old(self).chars@, old(self).pos + 1, Seq::empty()),
            ensures
                self.wf(),
                self.chars@ == cs,
                target == StrScan::Unterminated,
            decreases cs.len() - self.pos,
        {
            match self.advance() {
                Some(c) => {
                    if c == '"' {
                        return Ok(TokenKind::Str(s));
                    } else if c == '\\' {
                        let escape_line = self.line;
                        let escape_col = self.col;
                        match self.advance() {
                            Some(e) => {
                                if e == '"' {
                                    push_char(&mut s, '"');
                                } else if e == '\\' {
                                    push_char(&mut s, '\\');
                                } else if e == 'n' {
                                    push_char(&mut s, '\n');
                                } else {
                                    let mut msg = String::from_str("unknown escape sequence '\\");
                                    push_char(&mut msg, e);
                                    msg.append("'");
                                    return Err(
                                        SourceError::new(escape_line, escape_col, msg),
                                    );
                                }
                            },
                            None => {
                                break;
                            },
                        }
                    } else {
                        push_char(&mut s, c);
                    }
                },
                None => {
                    break;
                },
            }
        }
        Err(SourceError::new(start_line, start_col, String::from_str("unterminated string literal")))
    }

    /// Tokenizes the rest of the text.
    pub fn tokenize(self) -> (r: Result<Vec<Token>, SourceError>)
        requires
            self.wf(),
        ensures
            lexed(r) == lex_from(self.text(), self.offset(), Seq::empty()),
    {
        let mut lx = self;
        let ghost cs = lx.chars@;
        let ghost target = lex_from(cs, lx.pos as int, Seq::empty());
        let mut tokens: Vec<Token> = Vec::new();
        assert(tokens_view(tokens@) =~= Seq::empty());
        loop
            invariant
                lx.wf(),
                lx.chars@ == cs,
                lex_from(cs, lx.pos as int, tokens_view(tokens@)) == target,
                target == lex_from(self.text(), self.offset(), Seq::empty()),
                cs == self.text(),
            decreases cs.len() - lx.pos,
        {
            let ghost p = lx.pos as int;
            let ghost acc = tokens_view(tokens@);
            lx.skip_trivia();
            proof {
                lemma_trivia_end(cs, p, false);
            }
            let line = lx.line;
            let col = lx.col;
            let c = match lx.peek() {
                Some(c) => c,
                None => {
                    let t = Token { kind: TokenKind::Eof, line, col };
                    tokens.push(t);
                    assert(tokens_view(tokens@) =~= acc.push(t@));
                    return Ok(tokens);
                },
            };
            let ghost q = lx.pos as int;
            let kind = if c == '{' {
                lx.advance();
                TokenKind::LBrace
            } else if c == '}' {
                lx.advance();
                TokenKind::RBrace
            } else if c == ':' {
                lx.advance();
                TokenKind::Colon
            } else if c == '%' {
                lx.advance();
                TokenKind::Percent
            } else if c == '=' {
                lx.advance();
                TokenKind::Equal
            } else if c == '!' {
                lx.advance();
                if lx.peek() == Some('=') {
                    lx.advance();
                    TokenKind::NotEqual
                } else {
                    return Err(SourceError::new(line, col, String::from_str("expected `=` after `!`")));
                }
            } else if c == '<' {
                lx.advance();
                if lx.peek() == Some('=') {
                    lx.advance();
                    TokenKind::Le
                } else {
                    TokenKind::Lt
                }
            } else if c == '>' {
                lx.advance();
                if lx.peek() == Some('=') {
                    lx.advance();
                    TokenKind::Ge
                } else {
                    TokenKind::Gt
                }
            } else if c == '"' {
                proof {
                    lemma_scan_string(cs, q + 1, Seq::empty());
                }
                match lx.read_string(line, col) {
                    Ok(k) => k,
                    Err(e) => {
                        return Err(e);
                    },
                }
            } else if is_ident_char(c) {
                proof {
                    lemma_ident_end(cs, q);
                }
                lx.read_ident()
            } else {
                let mut msg = String::from_str("unexpected character '");
                push_char(&mut msg, c);
                msg.append("'");
                return Err(SourceError::new(line, col, msg));
            };
            let t = Token { kind, line, col };
            tokens.push(t);
            assert(tokens_view(tokens@) =~= acc.push(t@));
        }
    }
}


/// Tokenizing that succeeds appends tokens to what came before, the last of
/// them and only the last being the end-of-file token.
pub proof fn lemma_lex_from_ends_with_eof(cs: Seq<char>, p: int, acc: Seq<TokenView>)
    ensures
        lex_from(cs, p, acc) matches Ok(v) ==> {
            &&& v.len() > acc.len()
            &&& v.take(acc.len() as int) == acc
            &&& v.last().kind == Lexeme::Eof
            &&& forall|i: int| acc.len() <= i < v.len() - 1 ==> (#[trigger] v[i]).kind != Lexeme::Eof
        },
    decreases cs.len() - p,
{
    let q = trivia_end(cs, p, false);
    lemma_trivia_end(cs, p, false);
    if q >= cs.len() || q < 0 {
        if let Ok(v) = lex_from(cs, p, acc) {
            assert(v.take(acc.len() as int) =~= acc);
        }
    } else {
        lemma_next_token(cs, q);
        if let Ok((k, e)) = next_token(cs, q) {
            let acc2 = acc.push(token_at(cs, q, k));
            lemma_lex_from_ends_with_eof(cs, e, acc2);
            if let Ok(v) = lex_from(cs, p, acc) {
                assert(v.take(acc.len() as int) =~= v.take(acc2.len() as int).take(acc.len() as int));
                assert(v[acc.len() as int] == v.take(acc2.len() as int)[acc.len() as int]);
            }
        }
    }
}

/// A tokenized text ends with exactly one end-of-file token.
pub proof fn law_tokens_end_with_eof(cs: Seq<char>)
    ensures
        tokenize_spec(cs) matches Ok(v) ==> {
            &&& v.len() >= 1
            &&& v.last().kind == Lexeme::Eof
            &&& forall|i: int| 0 <= i < v.len() - 1 ==> (#[trigger] v[i]).kind != Lexeme::Eof
        },
{
    lemma_lex_from_ends_with_eof(cs, 0, Seq::empty());
}

pub proof fn lemma_scan_string_escape(cs: Seq<char>, p: int, acc: Seq<char>)
    requires
        0 <= p,
    ensures
        scan_string(cs, p, acc) matches StrScan::BadEscape(x, e) ==> 1 <= e - 1 < cs.len() && cs[e
            - 1] == x && cs[e - 2] == '\\',
    decreases cs.len() - p,
{
    if p >= cs.len() || p < 0 {
    } else if cs[p] == '"' {
    } else if cs[p] == '\\' {
        if p + 1 >= cs.len() {
        } else if cs[p + 1] == '"' {
            lemma_scan_string_escape(cs, p + 2, acc.push('"'));
        } else if cs[p + 1] == '\\' {
            lemma_scan_string_escape(cs, p + 2, acc.push('\\'));
        } else if cs[p + 1] == 'n' {
            lemma_scan_string_escape(cs, p + 2, acc.push('\n'));
        }
    } else {
        lemma_scan_string_escape(cs, p + 1, acc.push(cs[p]));
    }
}

/// Whether a token's line and column are 1-based.
pub open spec fn placed(t: TokenView) -> bool {
    t.line >= 1 && t.col >= 1
}

/// Whether an error's line and column are 1-based.
pub open spec fn error_placed(e: ErrorView) -> bool {
    e.line >= 1 && e.col >= 1
}

pub proof fn lemma_lex_positions(cs: Seq<char>, p: int, acc: Seq<TokenView>)
    requires
        0 <= p,
        forall|i: int| 0 <= i < acc.len() ==> placed(#[trigger] acc[i]),
    ensures
        lex_from(cs, p, acc) matches Ok(v) ==> forall|i: int| 0 <= i < v.len() ==> placed(#[trigger] v[i]),
        lex_from(cs, p, acc) matches Err(e) ==> error_placed(e),
    decreases cs.len() - p,
{
    let q = trivia_end(cs, p, false);
    lemma_trivia_end(cs, p, false);
    lemma_position_bounds(cs, q);
    if q >= cs.len() || q < 0 {
        let v = acc.push(token_at(cs, q, Lexeme::Eof));
        assert forall|i: int| 0 <= i < v.len() implies placed(#[trigger] v[i]) by {
            if i < acc.len() {
                assert(v[i] == acc[i]);
            }
        }
    } else {
        lemma_next_token(cs, q);
        lemma_scan_string_escape(cs, q + 1, Seq::empty());
        match next_token(cs, q) {
            Ok((k, e)) => {
                let acc2 = acc.push(token_at(cs, q, k));
                assert forall|i: int| 0 <= i < acc2.len() implies placed(#[trigger] acc2[i]) by {
                    if i < acc.len() {
                        assert(acc2[i] == acc[i]);
                    }
                }
                lemma_lex_positions(cs, e, acc2);
            },
            Err(err) => {
                if cs[q] == '"' {
                    if let StrScan::BadEscape(x, e) = scan_string(cs, q + 1, Seq::empty()) {
                        lemma_position_bounds(cs, e - 1);
                    }
                }
            },
        }
    }
}

/// Every token stands at a 1-based line and column, and so does every error.
pub proof fn law_positions_one_based(cs: Seq<char>)
    ensures
        tokenize_spec(cs) matches Ok(v) ==> forall|i: int| 0 <= i < v.len() ==> placed(#[trigger] v[i]),
        tokenize_spec(cs) matches Err(e) ==> error_placed(e),
{
    lemma_lex_positions(cs, 0, Seq::empty());
}

} // verus!
