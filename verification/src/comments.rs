use vstd::prelude::*;
use crate::lexer::{
    ident_end, identifier_char, lemma_next_token, lemma_scan_string, lemma_scan_string_escape,
    lemma_trivia_end, lex_from, next_token, position, scan_string, token_at, tokenize_spec,
    trivia_end, Lexeme, StrScan, TokenView,
};
use crate::error::ErrorView;
use crate::text::is_whitespace;

verus! {

// ---------------------------------------------------------------------------
// A text `x` that holds the text `y` from `k` on, `d` characters later, with
// the same positions there.

pub open spec fn shifted(x: Seq<char>, y: Seq<char>, k: int, d: int) -> bool {
    &&& 0 <= k <= y.len()
    &&& d >= 0
    &&& x.len() == y.len() + d
    &&& forall|i: int| k <= i < y.len() ==> x[i + d] == #[trigger] y[i]
    &&& forall|i: int| k <= i <= y.len() ==> position(x, i + d) == #[trigger] position(y, i)
}

proof fn lemma_trivia_shift(x: Seq<char>, y: Seq<char>, k: int, d: int, p: int, b: bool)
    requires
        shifted(x, y, k, d),
        k <= p <= y.len(),
    ensures
        trivia_end(x, p + d, b) == trivia_end(y, p, b) + d,
    decreases y.len() - p, (if b { 1int } else { 0int }),
{
    if p < y.len() {
        assert(x[p + d] == y[p]);
        if b {
            if y[p] == '\n' {
                lemma_trivia_shift(x, y, k, d, p, false);
            } else {
                lemma_trivia_shift(x, y, k, d, p + 1, true);
            }
        } else if is_whitespace(y[p]) {
            lemma_trivia_shift(x, y, k, d, p + 1, false);
        } else if y[p] == '#' {
            lemma_trivia_shift(x, y, k, d, p + 1, true);
        }
    }
}

proof fn lemma_ident_shift(x: Seq<char>, y: Seq<char>, k: int, d: int, p: int)
    requires
        shifted(x, y, k, d),
        k <= p <= y.len(),
    ensures
        ident_end(x, p + d) == ident_end(y, p) + d,
    decreases y.len() - p,
{
    if p < y.len() {
        assert(x[p + d] == y[p]);
        if identifier_char(y[p]) {
            lemma_ident_shift(x, y, k, d, p + 1);
        }
    }
}

pub open spec fn shift_scan(r: StrScan, d: int) -> StrScan {
    match r {
        StrScan::Closed(v, e) => StrScan::Closed(v, e + d),
        StrScan::Unterminated => StrScan::Unterminated,
        StrScan::BadEscape(c, e) => StrScan::BadEscape(c, e + d),
    }
}

proof fn lemma_scan_shift(x: Seq<char>, y: Seq<char>, k: int, d: int, p: int, acc: Seq<char>)
    requires
        shifted(x, y, k, d),
        k <= p <= y.len(),
    ensures
        scan_string(x, p + d, acc) == shift_scan(scan_string(y, p, acc), d),
    decreases y.len() - p,
{
    if p < y.len() {
        assert(x[p + d] == y[p]);
        if y[p] == '"' {
        } else if y[p] == '\\' {
            if p + 1 < y.len() {
                assert(x[p + 1 + d] == y[p + 1]);
                if y[p + 1] == '"' {
                    lemma_scan_shift(x, y, k, d, p + 2, acc.push('"'));
                } else if y[p + 1] == '\\' {
                    lemma_scan_shift(x, y, k, d, p + 2, acc.push('\\'));
                } else if y[p + 1] == 'n' {
                    lemma_scan_shift(x, y, k, d, p + 2, acc.push('\n'));
                }
            }
        } else {
            lemma_scan_shift(x, y, k, d, p + 1, acc.push(y[p]));
        }
    }
}

proof fn lemma_next_token_shift(x: Seq<char>, y: Seq<char>, k: int, d: int, q: int)
    requires
        shifted(x, y, k, d),
        k <= q < y.len(),
    ensures
        match next_token(y, q) {
            Ok((kind, e)) => next_token(x, q + d) == Ok::<(Lexeme, int), ErrorView>((kind, e + d)),
            Err(err) => next_token(x, q + d) == Err::<(Lexeme, int), ErrorView>(err),
        },
{
    assert(x[q + d] == y[q]);
    assert(position(x, q + d) == position(y, q));
    if q + 1 < y.len() {
        assert(x[q + 1 + d] == y[q + 1]);
    }
    lemma_scan_shift(x, y, k, d, q + 1, Seq::empty());
    lemma_scan_string(y, q + 1, Seq::empty());
    lemma_scan_string_escape(y, q + 1, Seq::empty());
    if let StrScan::BadEscape(_, e) = scan_string(y, q + 1, Seq::empty()) {
        assert(position(x, (e - 1) + d) == position(y, e - 1));
    }
    lemma_ident_shift(x, y, k, d, q);
    let e = ident_end(y, q);
    crate::lexer::lemma_ident_end(y, q);
    assert(x.subrange(q + d, e + d) =~= y.subrange(q, e)) by {
        assert forall|i: int| 0 <= i < e - q implies x.subrange(q + d, e + d)[i] == y.subrange(
            q,
            e,
        )[i] by {
            assert(x[q + i + d] == y[q + i]);
        }
    }
}

proof fn lemma_lex_shift(
    x: Seq<char>,
    y: Seq<char>,
    k: int,
    d: int,
    p: int,
    acc: Seq<TokenView>,
)
    requires
        shifted(x, y, k, d),
        k <= p <= y.len(),
    ensures
        lex_from(x, p + d, acc) == lex_from(y, p, acc),
    decreases y.len() - p,
{
    lemma_trivia_shift(x, y, k, d, p, false);
    lemma_trivia_end(y, p, false);
    let q = trivia_end(y, p, false);
    assert(position(x, q + d) == position(y, q));
    if q < y.len() {
        lemma_next_token_shift(x, y, k, d, q);
        lemma_next_token(y, q);
        if let Ok((kind, e)) = next_token(y, q) {
            lemma_lex_shift(x, y, k, d, e, acc.push(token_at(y, q, kind)));
        }
    }
}

// ---------------------------------------------------------------------------
// A text `t` that begins with the whole of `s`.

pub open spec fn extends(s: Seq<char>, t: Seq<char>) -> bool {
    &&& s.len() < t.len()
    &&& forall|i: int| 0 <= i < s.len() ==> t[i] == #[trigger] s[i]
}

proof fn lemma_position_prefix(s: Seq<char>, t: Seq<char>, i: int)
    requires
        extends(s, t),
        0 <= i <= s.len(),
    ensures
        position(t, i) == position(s, i),
    decreases i,
{
    if i > 0 {
        assert(t[i - 1] == s[i - 1]);
        lemma_position_prefix(s, t, i - 1);
    }
}

proof fn lemma_trivia_prefix(s: Seq<char>, t: Seq<char>, p: int, b: bool)
    requires
        extends(s, t),
        0 <= p,
        trivia_end(s, p, b) < s.len(),
    ensures
        trivia_end(t, p, b) == trivia_end(s, p, b),
    decreases s.len() - p, (if b { 1int } else { 0int }),
{
    lemma_trivia_end(s, p, b);
    if p < s.len() {
        assert(t[p] == s[p]);
        if b {
            if s[p] == '\n' {
                lemma_trivia_prefix(s, t, p, false);
            } else {
                lemma_trivia_prefix(s, t, p + 1, true);
            }
        } else if is_whitespace(s[p]) {
            lemma_trivia_prefix(s, t, p + 1, false);
        } else if s[p] == '#' {
            lemma_trivia_prefix(s, t, p + 1, true);
        }
    }
}

proof fn lemma_scan_prefix(s: Seq<char>, t: Seq<char>, p: int, acc: Seq<char>)
    requires
        extends(s, t),
        0 <= p,
        scan_string(s, p, acc) is Closed,
    ensures
        scan_string(t, p, acc) == scan_string(s, p, acc),
    decreases s.len() - p,
{
    if p < s.len() {
        assert(t[p] == s[p]);
        if s[p] == '"' {
        } else if s[p] == '\\' {
            if p + 1 < s.len() {
                assert(t[p + 1] == s[p + 1]);
                if s[p + 1] == '"' {
                    lemma_scan_prefix(s, t, p + 2, acc.push('"'));
                } else if s[p + 1] == '\\' {
                    lemma_scan_prefix(s, t, p + 2, acc.push('\\'));
                } else if s[p + 1] == 'n' {
                    lemma_scan_prefix(s, t, p + 2, acc.push('\n'));
                }
            }
        } else {
            lemma_scan_prefix(s, t, p + 1, acc.push(s[p]));
        }
    }
}

proof fn lemma_ident_prefix(s: Seq<char>, t: Seq<char>, p: int)
    requires
        extends(s, t),
        0 <= p <= s.len(),
        !identifier_char(t[s.len() as int]),
    ensures
        ident_end(t, p) == ident_end(s, p),
    decreases s.len() - p,
{
    if p < s.len() {
        assert(t[p] == s[p]);
        if identifier_char(s[p]) {
            lemma_ident_prefix(s, t, p + 1);
        }
    }
}

proof fn lemma_next_token_prefix(s: Seq<char>, t: Seq<char>, q: int)
    requires
        extends(s, t),
        0 <= q < s.len(),
        next_token(s, q) is Ok,
        !identifier_char(t[s.len() as int]),
        t[s.len() as int] != '=',
    ensures
        next_token(t, q) == next_token(s, q),
{
    assert(t[q] == s[q]);
    if q + 1 < s.len() {
        assert(t[q + 1] == s[q + 1]);
    }
    lemma_position_prefix(s, t, q);
    if s[q] == '"' {
        lemma_scan_prefix(s, t, q + 1, Seq::empty());
    }
    lemma_ident_prefix(s, t, q);
    let e = ident_end(s, q);
    crate::lexer::lemma_ident_end(s, q);
    assert(t.subrange(q, e) =~= s.subrange(q, e)) by {
        assert forall|i: int| 0 <= i < e - q implies t.subrange(q, e)[i] == s.subrange(q, e)[i] by {
            assert(t[q + i] == s[q + i]);
        }
    }
}

// ---------------------------------------------------------------------------
// Trivia that reaches the end of `s`, and goes on past it.

proof fn lemma_comment_run(x: Seq<char>, n: int, d: int, i: int)
    requires
        0 <= n,
        1 <= d,
        n + d < x.len(),
        n + 1 <= i <= n + d,
        x[n + d] == '\n',
        forall|j: int| n + 1 <= j < n + d ==> #[trigger] x[j] != '\n',
    ensures
        trivia_end(x, i, true) == trivia_end(x, n + d + 1, false),
    decreases n + d - i,
{
    if i < n + d {
        assert(x[i] != '\n');
        lemma_comment_run(x, n, d, i + 1);
    } else {
        assert(is_whitespace('\n'));
        assert(trivia_end(x, i, false) == trivia_end(x, i + 1, false));
    }
}

proof fn lemma_boundary_hash(s: Seq<char>, x: Seq<char>, d: int, p: int, b: bool)
    requires
        extends(s, x),
        1 <= d,
        s.len() + d < x.len(),
        x[s.len() as int] == '#',
        x[s.len() + d] == '\n',
        forall|j: int| s.len() + 1 <= j < s.len() + d ==> #[trigger] x[j] != '\n',
        0 <= p <= s.len(),
        trivia_end(s, p, b) == s.len(),
    ensures
        trivia_end(x, p, b) == trivia_end(x, s.len() + d + 1, false),
    decreases s.len() - p, (if b { 1int } else { 0int }),
{
    let n = s.len() as int;
    if p < n {
        assert(x[p] == s[p]);
        if b {
            if s[p] == '\n' {
                lemma_boundary_hash(s, x, d, p, false);
            } else {
                lemma_boundary_hash(s, x, d, p + 1, true);
            }
        } else if is_whitespace(s[p]) {
            lemma_boundary_hash(s, x, d, p + 1, false);
        } else if s[p] == '#' {
            lemma_boundary_hash(s, x, d, p + 1, true);
        }
    } else {
        assert(!is_whitespace('#'));
        lemma_comment_run(x, n, d, n + 1);
    }
}

proof fn lemma_boundary_break(s: Seq<char>, y: Seq<char>, p: int, b: bool)
    requires
        extends(s, y),
        y[s.len() as int] == '\n',
        0 <= p <= s.len(),
        trivia_end(s, p, b) == s.len(),
    ensures
        trivia_end(y, p, b) == trivia_end(y, s.len() + 1int, false),
    decreases s.len() - p, (if b { 1int } else { 0int }),
{
    let n = s.len() as int;
    if p < n {
        assert(y[p] == s[p]);
        if b {
            if s[p] == '\n' {
                lemma_boundary_break(s, y, p, false);
            } else {
                lemma_boundary_break(s, y, p + 1, true);
            }
        } else if is_whitespace(s[p]) {
            lemma_boundary_break(s, y, p + 1, false);
        } else if s[p] == '#' {
            lemma_boundary_break(s, y, p + 1, true);
        }
    } else {
        assert(is_whitespace('\n'));
        assert(trivia_end(y, n, false) == trivia_end(y, n + 1, false));
    }
}

/// Lexing from where trivia ends is lexing from any start of that trivia.
proof fn lemma_lex_at_trivia_end(cs: Seq<char>, p: int, q: int, acc: Seq<TokenView>)
    requires
        0 <= p,
        q == trivia_end(cs, p, false),
        q < cs.len() ==> !is_whitespace(cs[q]) && cs[q] != '#',
    ensures
        lex_from(cs, q, acc) == lex_from(cs, p, acc),
{
    assert(trivia_end(cs, q, false) == q);
}

// ---------------------------------------------------------------------------
// Two texts that begin with the same text `s`, differ in what follows it up
// to a point, and agree after that point, lexed side by side.

/// Where trivia reaching the end of `s` goes on in `x` and in `y`: to `n + 1 + d`
/// in `x` and to `n + 1` in `y`, in the same comment state.
pub open spec fn trivia_joins(s: Seq<char>, x: Seq<char>, y: Seq<char>, d: int) -> bool {
    forall|q: int, b: bool|
        #![trigger trivia_end(s, q, b)]
        0 <= q <= s.len() && trivia_end(s, q, b) == s.len() ==> exists|b2: bool|
            #![trigger trivia_end(y, s.len() + 1int, b2)]
            trivia_end(x, q, b) == trivia_end(x, s.len() + 1 + d, b2) && trivia_end(y, q, b)
                == trivia_end(y, s.len() + 1int, b2)
}

proof fn lemma_joined_lex(
    s: Seq<char>,
    x: Seq<char>,
    y: Seq<char>,
    d: int,
    p: int,
    acc: Seq<TokenView>,
    accs: Seq<TokenView>,
)
    requires
        extends(s, x),
        extends(s, y),
        !identifier_char(x[s.len() as int]),
        !identifier_char(y[s.len() as int]),
        x[s.len() as int] != '=',
        y[s.len() as int] != '=',
        shifted(x, y, s.len() + 1int, d),
        trivia_joins(s, x, y, d),
        0 <= p <= s.len(),
        lex_from(s, p, accs) is Ok,
    ensures
        lex_from(x, p, acc) == lex_from(y, p, acc),
    decreases s.len() - p,
{
    let n = s.len() as int;
    lemma_trivia_end(s, p, false);
    let q = trivia_end(s, p, false);
    if q < n {
        lemma_trivia_prefix(s, x, p, false);
        lemma_trivia_prefix(s, y, p, false);
        lemma_next_token_prefix(s, x, q);
        lemma_next_token_prefix(s, y, q);
        lemma_next_token(s, q);
        lemma_position_prefix(s, x, q);
        lemma_position_prefix(s, y, q);
        if let Ok((kind, e)) = next_token(s, q) {
            assert(token_at(x, q, kind) == token_at(y, q, kind));
            lemma_joined_lex(
                s,
                x,
                y,
                d,
                e,
                acc.push(token_at(y, q, kind)),
                accs.push(token_at(s, q, kind)),
            );
        }
    } else {
        assert(trivia_end(s, p, false) == n);
        let b2 = choose|b2: bool|
            #![trigger trivia_end(y, n + 1, b2)]
            trivia_end(x, p, false) == trivia_end(x, n + 1 + d, b2) && trivia_end(y, p, false)
                == trivia_end(y, n + 1, b2);
        lemma_trivia_shift(x, y, n + 1, d, n + 1, b2);
        lemma_trivia_end(y, n + 1, b2);
        lemma_trivia_end(x, n + 1 + d, b2);
        let qy = trivia_end(y, n + 1, b2);
        lemma_lex_at_trivia_end(y, p, qy, acc);
        lemma_lex_at_trivia_end(x, p, qy + d, acc);
        lemma_lex_shift(x, y, n + 1, d, qy, acc);
    }
}

proof fn lemma_line_unchanged(x: Seq<char>, n: int, d: int, j: int)
    requires
        0 <= n,
        0 <= j <= d,
        n + d < x.len(),
        forall|i: int| n <= i < n + d ==> #[trigger] x[i] != '\n',
    ensures
        position(x, n + j).0 == position(x, n).0,
    decreases j,
{
    if j > 0 {
        assert(x[n + j - 1] != '\n');
        lemma_line_unchanged(x, n, d, j - 1);
    }
}

proof fn lemma_positions_after_break(s: Seq<char>, x: Seq<char>, y: Seq<char>, d: int, i: int)
    requires
        extends(s, x),
        extends(s, y),
        1 <= d,
        s.len() + d < x.len(),
        x.len() == y.len() + d,
        x[s.len() + d] == '\n',
        y[s.len() as int] == '\n',
        forall|j: int| s.len() <= j < s.len() + d ==> #[trigger] x[j] != '\n',
        forall|j: int| s.len() + 1 <= j < y.len() ==> x[j + d] == #[trigger] y[j],
        s.len() + 1 <= i <= y.len(),
    ensures
        position(x, i + d) == position(y, i),
    decreases i,
{
    let n = s.len() as int;
    if i == n + 1 {
        lemma_position_prefix(s, x, n);
        lemma_position_prefix(s, y, n);
        lemma_line_unchanged(x, n, d, d);
    } else {
        assert(x[i - 1 + d] == y[i - 1]);
        lemma_positions_after_break(s, x, y, d, i - 1);
    }
}

/// A `#` comment that runs to a line break tokenizes like the bare line
/// break, after a text that tokenizes: the same tokens at the same places, or
/// the same first error.
pub proof fn law_comment_reads_as_line_break(s1: Seq<char>, c: Seq<char>, s2: Seq<char>)
    requires
        !c.contains('\n'),
        tokenize_spec(s1) is Ok,
    ensures
        tokenize_spec(s1 + seq!['#'] + c + seq!['\n'] + s2) == tokenize_spec(
            s1 + seq!['\n'] + s2,
        ),
{
    let x = s1 + seq!['#'] + c + seq!['\n'] + s2;
    let y = s1 + seq!['\n'] + s2;
    let n = s1.len() as int;
    let d = c.len() + 1int;
    assert forall|i: int| 0 <= i < n implies x[i] == #[trigger] s1[i] by {}
    assert forall|i: int| 0 <= i < n implies y[i] == #[trigger] s1[i] by {}
    assert(x[n] == '#');
    assert(x[n + d] == '\n');
    assert(y[n] == '\n');
    assert forall|j: int| n + 1 <= j < n + d implies #[trigger] x[j] != '\n' by {
        assert(x[j] == c[j - n - 1]);
    }
    assert forall|j: int| n <= j < n + d implies #[trigger] x[j] != '\n' by {
        if j > n {
            assert(x[j] == c[j - n - 1]);
        }
    }
    assert forall|i: int| n + 1 <= i < y.len() implies x[i + d] == #[trigger] y[i] by {
        assert(y[i] == s2[i - n - 1]);
        assert(x[i + d] == s2[i - n - 1]);
    }
    assert forall|i: int| n + 1 <= i <= y.len() implies position(x, i + d) == #[trigger] position(
        y,
        i,
    ) by {
        lemma_positions_after_break(s1, x, y, d, i);
    }
    assert(shifted(x, y, n + 1, d));
    assert(!identifier_char('#'));
    assert(!identifier_char('\n'));
    assert forall|q: int, b: bool|
        #![trigger trivia_end(s1, q, b)]
        0 <= q <= n && trivia_end(s1, q, b) == n implies exists|b2: bool|
        #![trigger trivia_end(y, n + 1, b2)]
        trivia_end(x, q, b) == trivia_end(x, n + 1 + d, b2) && trivia_end(y, q, b) == trivia_end(
            y,
            n + 1,
            b2,
        ) by {
        lemma_boundary_hash(s1, x, d, q, b);
        lemma_boundary_break(s1, y, q, b);
        assert(trivia_end(x, q, b) == trivia_end(x, n + 1 + d, false) && trivia_end(y, q, b)
            == trivia_end(y, n + 1, false));
    }
    lemma_joined_lex(s1, x, y, d, 0, Seq::empty(), Seq::empty());
}

proof fn lemma_boundary_crlf(s: Seq<char>, x: Seq<char>, p: int, b: bool)
    requires
        extends(s, x),
        s.len() + 1 < x.len(),
        x[s.len() as int] == '\r',
        x[s.len() + 1int] == '\n',
        0 <= p <= s.len(),
        trivia_end(s, p, b) == s.len(),
    ensures
        trivia_end(x, p, b) == trivia_end(x, s.len() + 2int, false),
    decreases s.len() - p, (if b { 1int } else { 0int }),
{
    let n = s.len() as int;
    if p < n {
        assert(x[p] == s[p]);
        if b {
            if s[p] == '\n' {
                lemma_boundary_crlf(s, x, p, false);
            } else {
                lemma_boundary_crlf(s, x, p + 1, true);
            }
        } else if is_whitespace(s[p]) {
            lemma_boundary_crlf(s, x, p + 1, false);
        } else if s[p] == '#' {
            lemma_boundary_crlf(s, x, p + 1, true);
        }
    } else {
        assert(is_whitespace('\n'));
        assert(is_whitespace('\r'));
        assert(trivia_end(x, n + 1, false) == trivia_end(x, n + 2, false));
        assert(trivia_end(x, n + 1, true) == trivia_end(x, n + 1, false));
    }
}

/// A text with a carriage return before a line break (`\r\n`) tokenizes like
/// the one with the bare line break (`\n`), after a text that tokenizes: the
/// same tokens at the same places, or the same first error.
pub proof fn law_crlf_reads_as_line_break(s1: Seq<char>, s2: Seq<char>)
    requires
        tokenize_spec(s1) is Ok,
    ensures
        tokenize_spec(s1 + seq!['\r', '\n'] + s2) == tokenize_spec(s1 + seq!['\n'] + s2),
{
    let x = s1 + seq!['\r', '\n'] + s2;
    let y = s1 + seq!['\n'] + s2;
    let n = s1.len() as int;
    let d = 1int;
    assert forall|i: int| 0 <= i < n implies x[i] == #[trigger] s1[i] by {}
    assert forall|i: int| 0 <= i < n implies y[i] == #[trigger] s1[i] by {}
    assert(x[n] == '\r');
    assert(x[n + 1] == '\n');
    assert(y[n] == '\n');
    assert forall|j: int| n <= j < n + d implies #[trigger] x[j] != '\n' by {}
    assert forall|i: int| n + 1 <= i < y.len() implies x[i + d] == #[trigger] y[i] by {
        assert(y[i] == s2[i - n - 1]);
        assert(x[i + d] == s2[i - n - 1]);
    }
    assert forall|i: int| n + 1 <= i <= y.len() implies position(x, i + d) == #[trigger] position(
        y,
        i,
    ) by {
        lemma_positions_after_break(s1, x, y, d, i);
    }
    assert(shifted(x, y, n + 1, d));
    assert(!identifier_char('\r'));
    assert(!identifier_char('\n'));
    assert forall|q: int, b: bool|
        #![trigger trivia_end(s1, q, b)]
        0 <= q <= n && trivia_end(s1, q, b) == n implies exists|b2: bool|
        #![trigger trivia_end(y, n + 1, b2)]
        trivia_end(x, q, b) == trivia_end(x, n + 1 + d, b2) && trivia_end(y, q, b) == trivia_end(
            y,
            n + 1,
            b2,
        ) by {
        lemma_boundary_crlf(s1, x, q, b);
        lemma_boundary_break(s1, y, q, b);
        assert(trivia_end(x, q, b) == trivia_end(x, n + 1 + d, false) && trivia_end(y, q, b)
            == trivia_end(y, n + 1, false));
    }
    lemma_joined_lex(s1, x, y, d, 0, Seq::empty(), Seq::empty());
}

/// The characters that Unicode gives the White_Space property.
pub open spec fn white_space_property(c: char) -> bool {
    let x = c as u32;
    ||| x == 0x09 || x == 0x0a || x == 0x0b || x == 0x0c || x == 0x0d
    ||| x == 0x20 || x == 0x85 || x == 0xa0 || x == 0x1680
    ||| x == 0x2000 || x == 0x2001 || x == 0x2002 || x == 0x2003 || x == 0x2004 || x == 0x2005
    ||| x == 0x2006 || x == 0x2007 || x == 0x2008 || x == 0x2009 || x == 0x200a
    ||| x == 0x2028 || x == 0x2029 || x == 0x202f || x == 0x205f || x == 0x3000
}

proof fn lemma_boundary_space(s: Seq<char>, x: Seq<char>, y: Seq<char>, p: int, b: bool) -> (b2: bool)
    requires
        extends(s, x),
        extends(s, y),
        is_whitespace(x[s.len() as int]),
        is_whitespace(y[s.len() as int]),
        x[s.len() as int] != '\n',
        y[s.len() as int] != '\n',
        0 <= p <= s.len(),
        trivia_end(s, p, b) == s.len(),
    ensures
        trivia_end(x, p, b) == trivia_end(x, s.len() + 1int, b2),
        trivia_end(y, p, b) == trivia_end(y, s.len() + 1int, b2),
    decreases s.len() - p, (if b { 1int } else { 0int }),
{
    let n = s.len() as int;
    if p < n {
        assert(x[p] == s[p]);
        assert(y[p] == s[p]);
        if b {
            if s[p] == '\n' {
                lemma_boundary_space(s, x, y, p, false)
            } else {
                lemma_boundary_space(s, x, y, p + 1, true)
            }
        } else if is_whitespace(s[p]) {
            lemma_boundary_space(s, x, y, p + 1, false)
        } else {
            lemma_boundary_space(s, x, y, p + 1, true)
        }
    } else {
        b
    }
}

proof fn lemma_positions_same(s: Seq<char>, x: Seq<char>, y: Seq<char>, i: int)
    requires
        extends(s, x),
        extends(s, y),
        x.len() == y.len(),
        x[s.len() as int] != '\n',
        y[s.len() as int] != '\n',
        forall|j: int| s.len() < j < y.len() ==> x[j] == #[trigger] y[j],
        s.len() <= i <= y.len(),
    ensures
        position(x, i) == position(y, i),
    decreases i,
{
    let n = s.len() as int;
    if i == n {
        lemma_position_prefix(s, x, n);
        lemma_position_prefix(s, y, n);
    } else {
        if i - 1 > n {
            assert(x[i - 1] == y[i - 1]);
        }
        lemma_positions_same(s, x, y, i - 1);
    }
}

/// Any white-space character other than a line break, in place of a space,
/// tokenizes like the space after a text that tokenizes, where it cannot be
/// part of an identifier: the same tokens at the same places, or the same
/// first error.
pub proof fn law_white_space_reads_as_space(s1: Seq<char>, w: char, s2: Seq<char>)
    requires
        tokenize_spec(s1) is Ok,
        white_space_property(w),
        w != '\n',
        !identifier_char(w),
    ensures
        tokenize_spec(s1 + seq![w] + s2) == tokenize_spec(s1 + seq![' '] + s2),
{
    let x = s1 + seq![w] + s2;
    let y = s1 + seq![' '] + s2;
    let n = s1.len() as int;
    assert forall|i: int| 0 <= i < n implies x[i] == #[trigger] s1[i] by {}
    assert forall|i: int| 0 <= i < n implies y[i] == #[trigger] s1[i] by {}
    assert(x[n] == w);
    assert(y[n] == ' ');
    assert(is_whitespace(w));
    assert(is_whitespace(' '));
    assert(!identifier_char(' '));
    assert forall|j: int| n < j < y.len() implies x[j] == #[trigger] y[j] by {
        assert(y[j] == s2[j - n - 1]);
        assert(x[j] == s2[j - n - 1]);
    }
    assert forall|i: int| n + 1 <= i < y.len() implies x[i + 0] == #[trigger] y[i] by {
        assert(x[i] == y[i]);
    }
    assert forall|i: int| n + 1 <= i <= y.len() implies position(x, i + 0) == #[trigger] position(
        y,
        i,
    ) by {
        lemma_positions_same(s1, x, y, i);
    }
    assert(shifted(x, y, n + 1, 0));
    assert forall|q: int, b: bool|
        #![trigger trivia_end(s1, q, b)]
        0 <= q <= n && trivia_end(s1, q, b) == n implies exists|b2: bool|
        #![trigger trivia_end(y, n + 1, b2)]
        trivia_end(x, q, b) == trivia_end(x, n + 1 + 0, b2) && trivia_end(y, q, b) == trivia_end(
            y,
            n + 1,
            b2,
        ) by {
        let b2 = lemma_boundary_space(s1, x, y, q, b);
        assert(trivia_end(x, q, b) == trivia_end(x, n + 1 + 0, b2) && trivia_end(y, q, b)
            == trivia_end(y, n + 1, b2));
    }
    lemma_joined_lex(s1, x, y, 0, 0, Seq::empty(), Seq::empty());
}

} // verus!
