use vstd::prelude::*;
use vstd::string::{StrSliceExecFns, StringExecFns};
use crate::text::{chars_of, decimal, push_char, push_decimal, string_of};

verus! {

/// An error located at a 1-based line and column of a source text.
#[derive(Debug)]
pub struct SourceError {
    pub line: usize,
    pub col: usize,
    pub message: String,
}

/// What a `SourceError` says: where, and what.
pub struct ErrorView {
    pub line: nat,
    pub col: nat,
    pub message: Seq<char>,
}

impl View for SourceError {
    type V = ErrorView;

    open spec fn view(&self) -> ErrorView {
        ErrorView { line: self.line as nat, col: self.col as nat, message: self.message@ }
    }
}

impl SourceError {
    pub fn new(line: usize, col: usize, message: String) -> (e: SourceError)
        ensures
            e.line == line,
            e.col == col,
            e.message@ == message@,
    {
        SourceError { line, col, message }
    }
}


pub open spec fn min2(a: nat, b: nat) -> nat {
    if a <= b {
        a
    } else {
        b
    }
}

/// The edit distance between `a` and `b`: the fewest single-character
/// insertions, deletions and substitutions that turn one into the other.
pub open spec fn edit_distance(a: Seq<char>, b: Seq<char>) -> nat
    decreases a.len() + b.len(),
{
    if a.len() == 0 {
        b.len()
    } else if b.len() == 0 {
        a.len()
    } else if a.last() == b.last() {
        edit_distance(a.drop_last(), b.drop_last())
    } else {
        1 + min2(
            edit_distance(a.drop_last(), b.drop_last()),
            min2(edit_distance(a.drop_last(), b), edit_distance(a, b.drop_last())),
        )
    }
}

pub proof fn lemma_edit_distance_upper(a: Seq<char>, b: Seq<char>)
    ensures
        edit_distance(a, b) <= if a.len() >= b.len() {
            a.len()
        } else {
            b.len()
        },
    decreases a.len() + b.len(),
{
    if a.len() > 0 && b.len() > 0 {
        lemma_edit_distance_upper(a.drop_last(), b.drop_last());
    }
}

/// Edit distance between the first `i` characters of `a` and the first `j`
/// of `b`.
pub open spec fn prefix_distance(a: Seq<char>, b: Seq<char>, i: int, j: int) -> nat {
    edit_distance(a.take(i), b.take(j))
}

/// Edit distance, used only to suggest "did you mean" on typos in flag names
/// and context keys.
pub fn levenshtein(a: &str, b: &str) -> (d: usize)
    ensures
        d == edit_distance(a@, b@),
{
    let a = chars_of(a);
    let b = chars_of(b);
    let n = b.len();
    // row[k] holds the distance for the first k + 1 characters of `b`; the
    // distance for none of them is the number of rows done.
    let mut row: Vec<usize> = Vec::new();
    let mut j: usize = 0;
    while j < n
        invariant
            j <= n,
            n == b@.len(),
            row@.len() == j,
            forall|k: int| 0 <= k < j ==> row@[k] == prefix_distance(a@, b@, 0, k + 1),
        decreases n - j,
    {
        assert(a@.take(0).len() == 0);
        row.push(j + 1);
        j = j + 1;
    }
    let mut done: usize = 0;
    while done < a.len()
        invariant
            done <= a@.len(),
            n == b@.len(),
            row@.len() == n,
            forall|k: int| 0 <= k < n ==> row@[k] == prefix_distance(a@, b@, done as int, k + 1),
        decreases a@.len() - done,
    {
        let i = done + 1;
        proof {
            assert(b@.take(0).len() == 0);
            assert(a@.take(done as int).len() == done);
            assert(a@.take(i as int).len() == i);
        }
        // the distances for no characters of `b`: in the row above, and in this one
        let mut prev = done;
        let mut left = i;
        let mut j: usize = 0;
        while j < n
            invariant
                1 <= i <= a@.len(),
                i == done + 1,
                j <= n,
                n == b@.len(),
                row@.len() == n,
                prev == prefix_distance(a@, b@, i - 1, j as int),
                left == prefix_distance(a@, b@, i as int, j as int),
                forall|k: int| 0 <= k < j ==> row@[k] == prefix_distance(a@, b@, i as int, k + 1),
                forall|k: int| j <= k < n ==> row@[k] == prefix_distance(a@, b@, i - 1, k + 1),
            decreases n - j,
        {
            let cur = row[j];
            let ghost ai = a@.take(i as int);
            let ghost bj = b@.take(j + 1);
            proof {
                assert(ai.drop_last() == a@.take(i - 1));
                assert(bj.drop_last() == b@.take(j as int));
                assert(ai.last() == a@[i - 1]);
                assert(bj.last() == b@[j as int]);
                lemma_edit_distance_upper(a@.take(i - 1), b@.take(j as int));
            }
            let v = if a[i - 1] == b[j] {
                prev
            } else {
                let m1 = if prev <= cur {
                    prev
                } else {
                    cur
                };
                let m2 = if m1 <= left {
                    m1
                } else {
                    left
                };
                1 + m2
            };
            row.set(j, v);
            prev = cur;
            left = v;
            j = j + 1;
        }
        done = i;
    }
    proof {
        assert(a@.take(a@.len() as int) == a@);
        assert(b@.take(n as int) == b@);
        assert(b@.take(0).len() == 0);
    }
    if n == 0 {
        a.len()
    } else {
        row[n - 1]
    }
}

/// The distance between two strings does not depend on their order.
pub proof fn law_edit_distance_symmetric(a: Seq<char>, b: Seq<char>)
    ensures
        edit_distance(a, b) == edit_distance(b, a),
    decreases a.len() + b.len(),
{
    if a.len() > 0 && b.len() > 0 {
        law_edit_distance_symmetric(a.drop_last(), b.drop_last());
        law_edit_distance_symmetric(a.drop_last(), b);
        law_edit_distance_symmetric(a, b.drop_last());
    }
}

/// The distance is at least the difference of the lengths and at most the
/// longer length.
pub proof fn law_edit_distance_bounds(a: Seq<char>, b: Seq<char>)
    ensures
        edit_distance(a, b) >= a.len() - b.len(),
        edit_distance(a, b) >= b.len() - a.len(),
        edit_distance(a, b) <= if a.len() >= b.len() {
            a.len()
        } else {
            b.len()
        },
    decreases a.len() + b.len(),
{
    lemma_edit_distance_upper(a, b);
    if a.len() > 0 && b.len() > 0 {
        law_edit_distance_bounds(a.drop_last(), b.drop_last());
        law_edit_distance_bounds(a.drop_last(), b);
        law_edit_distance_bounds(a, b.drop_last());
    }
}

/// A string is at distance zero from exactly itself.
pub proof fn law_edit_distance_zero(a: Seq<char>, b: Seq<char>)
    ensures
        edit_distance(a, b) == 0 <==> a == b,
    decreases a.len() + b.len(),
{
    law_edit_distance_bounds(a, b);
    if a.len() > 0 && b.len() > 0 {
        law_edit_distance_zero(a.drop_last(), b.drop_last());
        if edit_distance(a, b) == 0 {
            assert(a.last() == b.last());
            assert(a =~= a.drop_last().push(a.last()));
            assert(b =~= b.drop_last().push(b.last()));
        }
        if a == b {
            assert(a.drop_last() == b.drop_last());
        }
    } else if a.len() == 0 && b.len() == 0 {
        assert(a =~= b);
    }
}

/// Dropping the last character of either string changes the distance by at
/// most one, either way.
proof fn lemma_edit_distance_step(x: Seq<char>, y: Seq<char>)
    ensures
        x.len() > 0 ==> edit_distance(x, y) <= edit_distance(x.drop_last(), y) + 1,
        y.len() > 0 ==> edit_distance(x, y) <= edit_distance(x, y.drop_last()) + 1,
        y.len() > 0 ==> edit_distance(x, y.drop_last()) <= edit_distance(x, y) + 1,
        x.len() > 0 ==> edit_distance(x.drop_last(), y) <= edit_distance(x, y) + 1,
    decreases x.len() + y.len(),
{
    law_edit_distance_bounds(x, y);
    if x.len() > 0 && y.len() > 0 {
        let xp = x.drop_last();
        let yp = y.drop_last();
        lemma_edit_distance_step(xp, y);
        lemma_edit_distance_step(x, yp);
        lemma_edit_distance_step(xp, yp);
        law_edit_distance_bounds(x, yp);
        law_edit_distance_bounds(xp, y);
    } else if x.len() > 0 {
        law_edit_distance_bounds(x.drop_last(), y);
    } else if y.len() > 0 {
        law_edit_distance_bounds(x, y.drop_last());
    }
}

/// The distance obeys the triangle inequality: going through a third string
/// is never shorter.
pub proof fn law_edit_distance_triangle(a: Seq<char>, b: Seq<char>, c: Seq<char>)
    ensures
        edit_distance(a, c) <= edit_distance(a, b) + edit_distance(b, c),
    decreases a.len() + b.len() + c.len(),
{
    law_edit_distance_bounds(a, c);
    law_edit_distance_bounds(a, b);
    law_edit_distance_bounds(b, c);
    if a.len() > 0 && b.len() > 0 && c.len() > 0 {
        let ap = a.drop_last();
        let bp = b.drop_last();
        let cp = c.drop_last();
        lemma_edit_distance_step(a, c);
        if a.last() == c.last() {
            lemma_edit_distance_step(ap, c);
            lemma_edit_distance_step(a, cp);
        }
        if edit_distance(a, b) == edit_distance(ap, b) + 1 {
            law_edit_distance_triangle(ap, b, c);
        } else if edit_distance(b, c) == edit_distance(b, cp) + 1 {
            law_edit_distance_triangle(a, b, cp);
        } else if edit_distance(a, b) == edit_distance(a, bp) + 1 {
            if edit_distance(b, c) == edit_distance(bp, c) + 1 {
                law_edit_distance_triangle(a, bp, c);
            } else {
                law_edit_distance_triangle(a, bp, cp);
            }
        } else {
            if edit_distance(b, c) == edit_distance(bp, c) + 1 {
                law_edit_distance_triangle(ap, bp, c);
            } else {
                law_edit_distance_triangle(ap, bp, cp);
            }
        }
    }
}


/// Whether candidate `k` is the one suggested for `target`: within distance
/// two, no farther than any other candidate, and strictly nearer than every
/// candidate before it.
pub open spec fn is_suggestion(target: Seq<char>, candidates: Seq<Seq<char>>, k: int) -> bool {
    &&& 0 <= k < candidates.len()
    &&& edit_distance(target, candidates[k]) <= 2
    &&& forall|i: int|
        0 <= i < candidates.len() ==> edit_distance(target, candidates[k]) <= edit_distance(
            target,
            #[trigger] candidates[i],
        )
    &&& forall|i: int|
        0 <= i < k ==> edit_distance(target, candidates[k]) < edit_distance(
            target,
            #[trigger] candidates[i],
        )
}

pub open spec fn texts(v: Seq<&str>) -> Seq<Seq<char>> {
    v.map_values(|c: &str| c@)
}

/// Finds the closest candidate to `target`, if any is within a distance
/// that's plausibly a typo rather than a different word entirely.
pub fn suggest<'a>(target: &str, candidates: &[&'a str]) -> (r: Option<&'a str>)
    ensures
        match r {
            None => forall|i: int|
                0 <= i < candidates@.len() ==> edit_distance(target@, (#[trigger] candidates@[i])@)
                    > 2,
            Some(s) => exists|k: int|
                is_suggestion(target@, texts(candidates@), k) && s@ == (#[trigger] candidates@[k])@,
        },
{
    let ghost cs = texts(candidates@);
    let mut best: Option<(usize, usize)> = None;
    let mut i: usize = 0;
    while i < candidates.len()
        invariant
            i <= candidates@.len(),
            cs == texts(candidates@),
            match best {
                None => forall|k: int| 0 <= k < i ==> edit_distance(target@, #[trigger] cs[k]) > 2,
                Some((b, d)) => {
                    &&& b < i
                    &&& d == edit_distance(target@, cs[b as int])
                    &&& d <= 2
                    &&& forall|k: int|
                        0 <= k < i ==> d <= edit_distance(target@, #[trigger] cs[k])
                    &&& forall|k: int| 0 <= k < b ==> d < edit_distance(target@, #[trigger] cs[k])
                },
            },
        decreases candidates@.len() - i,
    {
        let dist = levenshtein(target, candidates[i]);
        assert(cs[i as int] == candidates@[i as int]@);
        let better = match best {
            None => dist <= 2,
            Some((_, d)) => dist < d,
        };
        if better {
            best = Some((i, dist));
        }
        i = i + 1;
    }
    match best {
        None => {
            assert forall|k: int| 0 <= k < candidates@.len() implies edit_distance(
                target@,
                (#[trigger] candidates@[k])@,
            ) > 2 by {
                assert(cs[k] == candidates@[k]@);
            }
            None
        },
        Some((b, _)) => {
            assert(is_suggestion(target@, cs, b as int));
            Some(candidates[b])
        },
    }
}

/// At most one candidate is the suggestion.
pub proof fn law_suggestion_unique(target: Seq<char>, candidates: Seq<Seq<char>>, j: int, k: int)
    requires
        is_suggestion(target, candidates, j),
        is_suggestion(target, candidates, k),
    ensures
        j == k,
{
    if j < k {
        assert(edit_distance(target, candidates[k]) < edit_distance(target, candidates[j]));
    } else if k < j {
        assert(edit_distance(target, candidates[j]) < edit_distance(target, candidates[k]));
    }
}

// ---------------------------------------------------------------------------
// Rendering

/// Where the line starting at `p` ends: the next `\n`, or the end.
pub open spec fn line_end(s: Seq<char>, p: int) -> int
    decreases s.len() - p,
{
    if p >= s.len() || s[p] == '\n' {
        p
    } else {
        line_end(s, p + 1)
    }
}

pub proof fn lemma_line_end(s: Seq<char>, p: int)
    ensures
        line_end(s, p) >= p,
        p <= s.len() ==> line_end(s, p) <= s.len(),
        line_end(s, p) < s.len() ==> s[line_end(s, p)] == '\n',
    decreases s.len() - p,
{
    if !(p >= s.len() || s[p] == '\n') {
        lemma_line_end(s, p + 1);
    }
}

pub open spec fn strip_cr(l: Seq<char>) -> Seq<char> {
    if l.len() > 0 && l.last() == '\r' {
        l.drop_last()
    } else {
        l
    }
}

/// The lines from position `p` on, as `str::lines` gives them: split at
/// `\n`, a `\r` before the `\n` dropped, no empty line after a final `\n`.
pub open spec fn lines_from(s: Seq<char>, p: int) -> Seq<Seq<char>>
    decreases s.len() - p,
{
    if p >= s.len() || p < 0 {
        seq![]
    } else {
        let e = line_end(s, p);
        proof {
            lemma_line_end(s, p);
        }
        if e >= s.len() {
            seq![s.subrange(p, s.len() as int)]
        } else {
            seq![strip_cr(s.subrange(p, e))] + lines_from(s, e + 1)
        }
    }
}

/// Line `n` (from 0) of `s`, or nothing if there is no such line.
pub open spec fn line_text(s: Seq<char>, n: int) -> Seq<char> {
    if 0 <= n < lines_from(s, 0).len() {
        lines_from(s, 0)[n]
    } else {
        seq![]
    }
}

pub open spec fn spaces(n: nat) -> Seq<char> {
    Seq::new(n, |i: int| ' ')
}

/// What stands under the first `k` characters of `text` so that a caret
/// after it points at column `k + 1`: a tab under a tab, a space elsewhere.
pub open spec fn caret_indent(text: Seq<char>, k: nat) -> Seq<char> {
    let n = if k <= text.len() {
        k
    } else {
        text.len()
    };
    Seq::new(
        n,
        |i: int|
            if text[i] == '\t' {
                '\t'
            } else {
                ' '
            },
    )
}

/// The report that `SourceError::render` produces: the message, then the
/// file, line and column, the source line itself under a gutter holding its
/// number, and a caret under the column.
pub open spec fn rendered(e: ErrorView, file: Seq<char>, source: Seq<char>) -> Seq<char> {
    let text = line_text(source, if e.line >= 1 { e.line - 1 } else { 0 });
    let gutter = decimal(e.line);
    let pad = spaces(gutter.len());
    let caret = caret_indent(text, if e.col >= 1 { (e.col - 1) as nat } else { 0 });
    "error: "@ + e.message + "\n"@ + pad + "--> "@ + file + ":"@ + gutter + ":"@ + decimal(e.col)
        + "\n"@ + pad + " |\n"@ + gutter + " | "@ + text + "\n"@ + pad + " | "@ + caret
        + "^\n"@
}

fn nth_line(cs: &Vec<char>, n: usize) -> (r: Vec<char>)
    ensures
        r@ == line_text(cs@, n as int),
{
    let ghost all = lines_from(cs@, 0);
    let len = cs.len();
    let mut p: usize = 0;
    let mut k: usize = 0;
    while k < n && p < len
        invariant
            len == cs@.len(),
            p <= len,
            k <= n,
            k <= all.len(),
            all.skip(k as int) == lines_from(cs@, p as int),
        decreases len - p,
    {
        let mut e = p;
        while e < len && cs[e] != '\n'
            invariant
                p <= e <= len,
                len == cs@.len(),
                line_end(cs@, p as int) == line_end(cs@, e as int),
            decreases len - e,
        {
            e = e + 1;
        }
        proof {
            lemma_line_end(cs@, p as int);
            assert(all.skip(k + 1) =~= all.skip(k as int).drop_first());
        }
        if e < len {
            p = e + 1;
        } else {
            p = len;
        }
        k = k + 1;
    }
    if p >= len {
        proof {
            assert(all.skip(k as int).len() == 0);
        }
        return Vec::new();
    }
    let mut e = p;
    while e < len && cs[e] != '\n'
        invariant
            p <= e <= len,
            len == cs@.len(),
            line_end(cs@, p as int) == line_end(cs@, e as int),
        decreases len - e,
    {
        e = e + 1;
    }
    proof {
        lemma_line_end(cs@, p as int);
        assert(all.skip(k as int)[0] == all[k as int]);
    }
    let stop = if e < len && e > p && cs[e - 1] == '\r' {
        e - 1
    } else {
        e
    };
    let mut out: Vec<char> = Vec::new();
    let mut i = p;
    while i < stop
        invariant
            p <= i <= stop <= len,
            len == cs@.len(),
            out@ == cs@.subrange(p as int, i as int),
        decreases stop - i,
    {
        out.push(cs[i]);
        i = i + 1;
        assert(out@ =~= cs@.subrange(p as int, i as int));
    }
    proof {
        if e < len {
            let l = cs@.subrange(p as int, e as int);
            if e > p && cs@[e - 1] == '\r' {
                assert(strip_cr(l) =~= cs@.subrange(p as int, stop as int));
            } else {
                assert(strip_cr(l) =~= cs@.subrange(p as int, stop as int));
            }
        }
    }
    out
}

impl SourceError {
    /// The error as a compiler prints one: the message, the place, the source
    /// line, and a caret under the column.
    pub fn render(&self, filename: &str, source: &str) -> (r: String)
        ensures
            r@ == rendered(self@, filename@, source@),
    {
        let cs = chars_of(source);
        let text = nth_line(&cs, self.line.saturating_sub(1));
        let mut gutter = String::new();
        push_decimal(&mut gutter, self.line);
        let width = gutter.as_str().unicode_len();
        let mut pad = String::new();
        let mut i: usize = 0;
        while i < width
            invariant
                i <= width,
                pad@ == spaces(i as nat),
            decreases width - i,
        {
            push_char(&mut pad, ' ');
            i = i + 1;
            assert(pad@ =~= spaces(i as nat));
        }
        let caret_offset = self.col.saturating_sub(1);
        let n = if caret_offset <= text.len() {
            caret_offset
        } else {
            text.len()
        };
        let mut caret = String::new();
        let mut j: usize = 0;
        while j < n
            invariant
                j <= n <= text@.len(),
                caret@ =~= Seq::new(
                    j as nat,
                    |x: int|
                        if text@[x] == '\t' {
                            '\t'
                        } else {
                            ' '
                        },
                ),
            decreases n - j,
        {
            if text[j] == '\t' {
                push_char(&mut caret, '\t');
            } else {
                push_char(&mut caret, ' ');
            }
            j = j + 1;
        }
        let text = string_of(&text);
        let mut r = String::from_str("error: ");
        r.append(self.message.as_str());
        r.append("\n");
        r.append(pad.as_str());
        r.append("--> ");
        r.append(filename);
        r.append(":");
        r.append(gutter.as_str());
        r.append(":");
        push_decimal(&mut r, self.col);
        r.append("\n");
        r.append(pad.as_str());
        r.append(" |\n");
        r.append(gutter.as_str());
        r.append(" | ");
        r.append(text.as_str());
        r.append("\n");
        r.append(pad.as_str());
        r.append(" | ");
        r.append(caret.as_str());
        r.append("^\n");
        r
    }
}

} // verus!
