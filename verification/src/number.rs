use vstd::prelude::*;
use crate::text::chars_of;

verus! {

// The grammar of the text that `f64::from_str` accepts: an optional sign,
// then either `inf`, `infinity` or `nan` in any letter case, or a decimal
// number with an optional exponent:
//
//   Number ::= ( Digit+ | Digit+ '.' Digit* | Digit* '.' Digit+ ) Exp?
//   Exp    ::= ('e' | 'E') Sign? Digit+

pub open spec fn is_digit(c: char) -> bool {
    '0' <= c && c <= '9'
}

pub open spec fn all_digits(s: Seq<char>) -> bool {
    forall|i: int| 0 <= i < s.len() ==> is_digit(#[trigger] s[i])
}

pub open spec fn is_sign(c: char) -> bool {
    c == '+' || c == '-'
}

/// `s` without one leading sign, if it has one.
pub open spec fn unsigned_part(s: Seq<char>) -> Seq<char> {
    if s.len() > 0 && is_sign(s[0]) {
        s.drop_first()
    } else {
        s
    }
}

/// The index of the first occurrence of `c` in `s`, or the length of `s`.
pub open spec fn index_of(s: Seq<char>, c: char) -> int
    decreases s.len(),
{
    if s.len() == 0 {
        0
    } else if s[0] == c {
        0
    } else {
        1 + index_of(s.drop_first(), c)
    }
}

/// The index of the first `e` or `E` in `s`, or the length of `s`.
pub open spec fn exponent_index(s: Seq<char>) -> int
    decreases s.len(),
{
    if s.len() == 0 {
        0
    } else if s[0] == 'e' || s[0] == 'E' {
        0
    } else {
        1 + exponent_index(s.drop_first())
    }
}

pub open spec fn ascii_lower(c: char) -> char {
    if 'A' <= c && c <= 'Z' {
        ((c as u32) + 32) as char
    } else {
        c
    }
}

/// Whether `s` equals the lower-case word `w`, ignoring ASCII letter case.
pub open spec fn equals_ignoring_case(s: Seq<char>, w: Seq<char>) -> bool {
    s.len() == w.len() && forall|i: int| 0 <= i < s.len() ==> ascii_lower(#[trigger] s[i]) == w[i]
}

/// Digits with at most one `.` and at least one digit.
pub open spec fn is_mantissa(m: Seq<char>) -> bool {
    let k = index_of(m, '.');
    &&& all_digits(m.take(k))
    &&& (k < m.len() ==> all_digits(m.skip(k + 1)))
    &&& m.len() > (if k < m.len() { 1int } else { 0int })
}

/// A sign followed by at least one digit, or at least one digit.
pub open spec fn is_exponent_digits(x: Seq<char>) -> bool {
    let d = unsigned_part(x);
    d.len() >= 1 && all_digits(d)
}

pub open spec fn is_decimal_body(b: Seq<char>) -> bool {
    let k = exponent_index(b);
    is_mantissa(b.take(k)) && (k < b.len() ==> is_exponent_digits(b.skip(k + 1)))
}

/// Whether `s` parses as an `f64`.
pub open spec fn is_number(s: Seq<char>) -> bool {
    let b = unsigned_part(s);
    ||| equals_ignoring_case(b, "inf"@)
    ||| equals_ignoring_case(b, "infinity"@)
    ||| equals_ignoring_case(b, "nan"@)
    ||| is_decimal_body(b)
}


/// The position of the first `c` in `v[lo..hi]`, or `hi`.
fn find_char(v: &Vec<char>, lo: usize, hi: usize, c: char) -> (r: usize)
    requires
        lo <= hi <= v@.len(),
    ensures
        r == lo + index_of(v@.subrange(lo as int, hi as int), c),
        lo <= r <= hi,
{
    let mut j = lo;
    while j < hi && v[j] != c
        invariant
            lo <= j <= hi <= v@.len(),
            index_of(v@.subrange(lo as int, hi as int), c) == (j - lo) + index_of(
                v@.subrange(j as int, hi as int),
                c,
            ),
        decreases hi - j,
    {
        assert(v@.subrange(j as int, hi as int).drop_first() =~= v@.subrange(j + 1, hi as int));
        j = j + 1;
    }
    j
}

/// The position of the first `e` or `E` in `v[lo..hi]`, or `hi`.
fn find_exponent(v: &Vec<char>, lo: usize, hi: usize) -> (r: usize)
    requires
        lo <= hi <= v@.len(),
    ensures
        r == lo + exponent_index(v@.subrange(lo as int, hi as int)),
        lo <= r <= hi,
{
    let mut j = lo;
    while j < hi && v[j] != 'e' && v[j] != 'E'
        invariant
            lo <= j <= hi <= v@.len(),
            exponent_index(v@.subrange(lo as int, hi as int)) == (j - lo) + exponent_index(
                v@.subrange(j as int, hi as int),
            ),
        decreases hi - j,
    {
        assert(v@.subrange(j as int, hi as int).drop_first() =~= v@.subrange(j + 1, hi as int));
        j = j + 1;
    }
    j
}

/// Whether `v[lo..hi]` holds only digits.
fn digits_only(v: &Vec<char>, lo: usize, hi: usize) -> (r: bool)
    requires
        lo <= hi <= v@.len(),
    ensures
        r == all_digits(v@.subrange(lo as int, hi as int)),
{
    let mut j = lo;
    while j < hi
        invariant
            lo <= j <= hi <= v@.len(),
            all_digits(v@.subrange(lo as int, j as int)),
        decreases hi - j,
    {
        if !('0' <= v[j] && v[j] <= '9') {
            assert(v@.subrange(lo as int, hi as int)[j - lo] == v@[j as int]);
            return false;
        }
        j = j + 1;
        assert forall|i: int| 0 <= i < j - lo implies is_digit(
            #[trigger] v@.subrange(lo as int, j as int)[i],
        ) by {
            if i < j - 1 - lo {
                assert(v@.subrange(lo as int, j as int)[i] == v@.subrange(lo as int, j - 1)[i]);
            }
        }
    }
    true
}

fn lower(c: char) -> (r: char)
    ensures
        r == ascii_lower(c),
{
    if 'A' <= c && c <= 'Z' {
        let x = c as u32 + 32;
        assert(0x41 + 32 <= x <= 0x5a + 32);
        (x as u8) as char
    } else {
        c
    }
}

/// Whether `v[lo..hi]` equals `w` when ASCII letters are lowered.
fn equals_word(v: &Vec<char>, lo: usize, hi: usize, w: &Vec<char>) -> (r: bool)
    requires
        lo <= hi <= v@.len(),
    ensures
        r == equals_ignoring_case(v@.subrange(lo as int, hi as int), w@),
{
    if hi - lo != w.len() {
        return false;
    }
    let mut i: usize = 0;
    while i < w.len()
        invariant
            lo <= hi <= v@.len(),
            hi - lo == w@.len(),
            i <= w@.len(),
            forall|k: int| 0 <= k < i ==> ascii_lower(#[trigger] v@.subrange(lo as int, hi as int)[k]) == w@[k],
        decreases w.len() - i,
    {
        if lower(v[lo + i]) != w[i] {
            assert(v@.subrange(lo as int, hi as int)[i as int] == v@[lo + i]);
            return false;
        }
        assert(v@.subrange(lo as int, hi as int)[i as int] == v@[lo + i]);
        i = i + 1;
    }
    true
}

/// Whether `v[lo..hi]` is a mantissa: digits, at most one `.`, and at least one digit.
fn mantissa_ok(v: &Vec<char>, lo: usize, hi: usize) -> (r: bool)
    requires
        lo <= hi <= v@.len(),
    ensures
        r == is_mantissa(v@.subrange(lo as int, hi as int)),
{
    let ghost m = v@.subrange(lo as int, hi as int);
    let k = find_char(v, lo, hi, '.');
    assert(m.take(k - lo) =~= v@.subrange(lo as int, k as int));
    let head = digits_only(v, lo, k);
    if k < hi {
        assert(m.skip(k - lo + 1) =~= v@.subrange(k + 1, hi as int));
        let tail = digits_only(v, k + 1, hi);
        head && tail && hi - lo > 1
    } else {
        head && hi - lo > 0
    }
}

/// Whether `v[lo..hi]` is an optional sign followed by at least one digit.
fn exponent_ok(v: &Vec<char>, lo: usize, hi: usize) -> (r: bool)
    requires
        lo <= hi <= v@.len(),
    ensures
        r == is_exponent_digits(v@.subrange(lo as int, hi as int)),
{
    let ghost x = v@.subrange(lo as int, hi as int);
    let start = if lo < hi && (v[lo] == '+' || v[lo] == '-') {
        assert(x.drop_first() =~= v@.subrange(lo + 1, hi as int));
        lo + 1
    } else {
        lo
    };
    hi - start >= 1 && digits_only(v, start, hi)
}

/// Whether `s` parses as an `f64`: the check that the right-hand side of a
/// numeric comparison must pass.
pub fn parses_as_number(s: &str) -> (r: bool)
    ensures
        r == is_number(s@),
{
    let v = chars_of(s);
    let hi = v.len();
    let lo: usize = if hi > 0 && (v[0] == '+' || v[0] == '-') {
        1
    } else {
        0
    };
    let ghost b = unsigned_part(v@);
    assert(b =~= v@.subrange(lo as int, hi as int));
    let inf = chars_of("inf");
    let infinity = chars_of("infinity");
    let nan = chars_of("nan");
    if equals_word(&v, lo, hi, &inf) || equals_word(&v, lo, hi, &infinity) || equals_word(
        &v,
        lo,
        hi,
        &nan,
    ) {
        return true;
    }
    let k = find_exponent(&v, lo, hi);
    assert(b.take(k - lo) =~= v@.subrange(lo as int, k as int));
    let m = mantissa_ok(&v, lo, k);
    if k < hi {
        assert(b.skip(k - lo + 1) =~= v@.subrange(k + 1, hi as int));
        m && exponent_ok(&v, k + 1, hi)
    } else {
        m
    }
}


// ---------------------------------------------------------------------------
// Percentages: a number from 0 to 100 written as digits with at most one `.`.

pub open spec fn digit_value(c: char) -> nat {
    ((c as u32) - ('0' as u32)) as nat
}

/// The number that a run of digits writes.
pub open spec fn digits_value(s: Seq<char>) -> nat
    decreases s.len(),
{
    if s.len() == 0 {
        0
    } else {
        digits_value(s.drop_last()) * 10 + digit_value(s.last())
    }
}

/// Whether some digit is not zero.
pub open spec fn some_nonzero(s: Seq<char>) -> bool {
    exists|i: int| 0 <= i < s.len() && s[i] != '0'
}

pub open spec fn whole_part(s: Seq<char>) -> Seq<char> {
    s.take(index_of(s, '.'))
}

pub open spec fn fraction_part(s: Seq<char>) -> Seq<char> {
    if index_of(s, '.') < s.len() {
        s.skip(index_of(s, '.') + 1)
    } else {
        seq![]
    }
}

/// A number from 0 to 100, in digits with at most one `.`.
pub open spec fn is_percentage(s: Seq<char>) -> bool {
    &&& is_mantissa(s)
    &&& (digits_value(whole_part(s)) < 100 || (digits_value(whole_part(s)) == 100 && !some_nonzero(
        fraction_part(s),
    )))
}

/// How many of the buckets 0 to 99 lie below the percentage.
pub open spec fn threshold(s: Seq<char>) -> nat {
    digits_value(whole_part(s)) + if some_nonzero(fraction_part(s)) {
        1nat
    } else {
        0nat
    }
}

/// The value of `v[lo..hi]`, all digits, or 101 where it is larger.
fn capped_value(v: &Vec<char>, lo: usize, hi: usize) -> (r: u64)
    requires
        lo <= hi <= v@.len(),
        all_digits(v@.subrange(lo as int, hi as int)),
    ensures
        r == if digits_value(v@.subrange(lo as int, hi as int)) <= 101 {
            digits_value(v@.subrange(lo as int, hi as int))
        } else {
            101
        },
{
    let mut r: u64 = 0;
    let mut j = lo;
    while j < hi
        invariant
            lo <= j <= hi <= v@.len(),
            all_digits(v@.subrange(lo as int, hi as int)),
            r == if digits_value(v@.subrange(lo as int, j as int)) <= 101 {
                digits_value(v@.subrange(lo as int, j as int))
            } else {
                101
            },
        decreases hi - j,
    {
        let ghost prev = v@.subrange(lo as int, j as int);
        let ghost next = v@.subrange(lo as int, j + 1);
        assert(next.drop_last() =~= prev);
        assert(next.last() == v@[j as int]);
        assert(v@.subrange(lo as int, hi as int)[j - lo] == v@[j as int]);
        let d = (v[j] as u32 - '0' as u32) as u64;
        if r >= 101 {
            r = 101;
        } else {
            let x = r * 10 + d;
            r = if x <= 101 {
                x
            } else {
                101
            };
        }
        j = j + 1;
    }
    r
}

/// Whether `v[lo..hi]` holds a digit other than zero.
fn has_nonzero(v: &Vec<char>, lo: usize, hi: usize) -> (r: bool)
    requires
        lo <= hi <= v@.len(),
    ensures
        r == some_nonzero(v@.subrange(lo as int, hi as int)),
{
    let ghost s = v@.subrange(lo as int, hi as int);
    let mut j = lo;
    while j < hi
        invariant
            lo <= j <= hi <= v@.len(),
            s == v@.subrange(lo as int, hi as int),
            forall|i: int| 0 <= i < j - lo ==> s[i] == '0',
        decreases hi - j,
    {
        if v[j] != '0' {
            assert(s[j - lo] == v@[j as int]);
            return true;
        }
        assert(s[j - lo] == v@[j as int]);
        j = j + 1;
    }
    false
}

/// The threshold of a percentage, if `s` is one.
pub fn percentage_threshold(s: &str) -> (r: Option<u64>)
    ensures
        match r {
            Some(t) => is_percentage(s@) && t == threshold(s@),
            None => !is_percentage(s@),
        },
{
    let v = chars_of(s);
    let hi = v.len();
    assert(v@.subrange(0, hi as int) =~= v@);
    if !mantissa_ok(&v, 0, hi) {
        return None;
    }
    let k = find_char(&v, 0, hi, '.');
    assert(whole_part(v@) =~= v@.subrange(0, k as int));
    let whole = capped_value(&v, 0, k);
    let frac_nonzero = if k < hi {
        assert(fraction_part(v@) =~= v@.subrange(k + 1, hi as int));
        has_nonzero(&v, k + 1, hi)
    } else {
        assert(fraction_part(v@) =~= v@.subrange(hi as int, hi as int));
        has_nonzero(&v, hi, hi)
    };
    if whole < 100 || (whole == 100 && !frac_nonzero) {
        Some(
            if frac_nonzero {
                whole + 1
            } else {
                whole
            },
        )
    } else {
        None
    }
}

// ---------------------------------------------------------------------------
// Laws, over digits written by their character codes

/// A nonempty run of the ASCII digits `0` to `9`.
pub open spec fn decimal_digits(s: Seq<char>) -> bool {
    s.len() >= 1 && forall|i: int| 0 <= i < s.len() ==> '0' <= #[trigger] s[i] && s[i] <= '9'
}

/// The number that a run of ASCII digits writes in base ten.
pub open spec fn decimal_number(s: Seq<char>) -> nat
    decreases s.len(),
{
    if s.len() == 0 {
        0
    } else {
        decimal_number(s.drop_last()) * 10 + ((s.last() as u32) - ('0' as u32)) as nat
    }
}

proof fn lemma_index_of_first(s: Seq<char>, c: char, k: int)
    requires
        0 <= k <= s.len(),
        forall|i: int| 0 <= i < k ==> s[i] != c,
        k < s.len() ==> s[k] == c,
    ensures
        index_of(s, c) == k,
    decreases s.len(),
{
    if s.len() > 0 && k > 0 {
        assert forall|i: int| 0 <= i < k - 1 implies s.drop_first()[i] != c by {
            assert(s.drop_first()[i] == s[i + 1]);
        }
        lemma_index_of_first(s.drop_first(), c, k - 1);
    }
}

proof fn lemma_exponent_index_first(s: Seq<char>, k: int)
    requires
        0 <= k <= s.len(),
        forall|i: int| 0 <= i < k ==> s[i] != 'e' && s[i] != 'E',
        k < s.len() ==> s[k] == 'e' || s[k] == 'E',
    ensures
        exponent_index(s) == k,
    decreases s.len(),
{
    if s.len() > 0 && k > 0 {
        assert forall|i: int| 0 <= i < k - 1 implies s.drop_first()[i] != 'e' && s.drop_first()[i]
            != 'E' by {
            assert(s.drop_first()[i] == s[i + 1]);
        }
        lemma_exponent_index_first(s.drop_first(), k - 1);
    }
}

proof fn lemma_digits_value(s: Seq<char>)
    ensures
        digits_value(s) == decimal_number(s),
    decreases s.len(),
{
    if s.len() > 0 {
        lemma_digits_value(s.drop_last());
    }
}

proof fn lemma_digits_all(s: Seq<char>)
    requires
        decimal_digits(s),
    ensures
        all_digits(s),
        forall|i: int| 0 <= i < s.len() ==> #[trigger] s[i] != '.' && s[i] != 'e' && s[i] != 'E'
            && !is_sign(s[i]),
        digits_value(s) == decimal_number(s),
{
    assert forall|i: int| 0 <= i < s.len() implies is_digit(#[trigger] s[i]) by {}
    assert forall|i: int| 0 <= i < s.len() implies #[trigger] s[i] != '.' && s[i] != 'e' && s[i]
        != 'E' && !is_sign(s[i]) by {}
    lemma_digits_value(s);
}

/// A mantissa built of a digit run `a`, a `.` and a digit run `b`, where
/// either run may be left out but not both.
proof fn lemma_mantissa(a: Seq<char>, b: Seq<char>, dot: bool) -> (m: Seq<char>)
    requires
        a.len() == 0 || decimal_digits(a),
        b.len() == 0 || decimal_digits(b),
        a.len() + b.len() >= 1,
        !dot ==> b.len() == 0,
    ensures
        m == (if dot { a + seq!['.'] + b } else { a }),
        is_mantissa(m),
        forall|i: int| 0 <= i < m.len() ==> #[trigger] m[i] != 'e' && m[i] != 'E',
{
    if a.len() > 0 {
        lemma_digits_all(a);
    }
    if b.len() > 0 {
        lemma_digits_all(b);
    }
    let m = if dot { a + seq!['.'] + b } else { a };
    if dot {
        assert forall|i: int| 0 <= i < a.len() implies m[i] != '.' by {
            assert(m[i] == a[i]);
        }
        lemma_index_of_first(m, '.', a.len() as int);
        assert(m.take(a.len() as int) =~= a);
        assert(m.skip(a.len() + 1int) =~= b);
        assert forall|i: int| 0 <= i < m.len() implies #[trigger] m[i] != 'e' && m[i] != 'E' by {
            if i < a.len() {
                assert(m[i] == a[i]);
            } else if i > a.len() {
                assert(m[i] == b[i - a.len() - 1]);
            }
        }
    } else {
        lemma_index_of_first(m, '.', a.len() as int);
        assert(m.take(a.len() as int) =~= a);
    }
    m
}

proof fn lemma_decimal_body(m: Seq<char>, x: Seq<char>, exp: bool)
    requires
        is_mantissa(m),
        forall|i: int| 0 <= i < m.len() ==> #[trigger] m[i] != 'e' && m[i] != 'E',
        exp ==> is_exponent_digits(x),
    ensures
        is_decimal_body(if exp { m + seq!['e'] + x } else { m }),
        is_decimal_body(if exp { m + seq!['E'] + x } else { m }),
{
    if exp {
        let b1 = m + seq!['e'] + x;
        let b2 = m + seq!['E'] + x;
        assert forall|i: int| 0 <= i < m.len() implies b1[i] != 'e' && b1[i] != 'E' by {
            assert(b1[i] == m[i]);
        }
        assert forall|i: int| 0 <= i < m.len() implies b2[i] != 'e' && b2[i] != 'E' by {
            assert(b2[i] == m[i]);
        }
        lemma_exponent_index_first(b1, m.len() as int);
        lemma_exponent_index_first(b2, m.len() as int);
        assert(b1.take(m.len() as int) =~= m);
        assert(b2.take(m.len() as int) =~= m);
        assert(b1.skip(m.len() + 1int) =~= x);
        assert(b2.skip(m.len() + 1int) =~= x);
    } else {
        lemma_exponent_index_first(m, m.len() as int);
        assert(m.take(m.len() as int) =~= m);
    }
}

/// Texts of decimal digits parse as numbers: a run of digits `a`, and with a
/// second run `b`, `a.b`, `.b`, `a.`, a sign before `a`, and an exponent
/// `a e b`, `a E-b`, `a.b E+b`.
pub proof fn law_digit_texts_are_numbers(a: Seq<char>, b: Seq<char>)
    requires
        decimal_digits(a),
        decimal_digits(b),
    ensures
        is_number(a),
        is_number(a + seq!['.'] + b),
        is_number(seq!['.'] + b),
        is_number(a + seq!['.']),
        is_number(seq!['-'] + a),
        is_number(seq!['+'] + a),
        is_number(a + seq!['e'] + b),
        is_number(a + seq!['E', '-'] + b),
        is_number(a + seq!['.'] + b + seq!['E', '+'] + b),
{
    let empty = Seq::<char>::empty();
    lemma_digits_all(a);
    lemma_digits_all(b);
    assert(unsigned_part(b) == b);
    assert(is_exponent_digits(b));
    assert(unsigned_part(seq!['-'] + b) =~= b);
    assert(unsigned_part(seq!['+'] + b) =~= b);
    lemma_mantissa(a, empty, false);
    lemma_decimal_body(a, empty, false);
    assert(unsigned_part(a) == a);
    lemma_mantissa(a, b, true);
    let ab = a + seq!['.'] + b;
    lemma_decimal_body(ab, empty, false);
    assert(ab[0] == a[0]);
    assert(unsigned_part(ab) == ab);
    lemma_mantissa(empty, b, true);
    assert(empty + seq!['.'] + b =~= seq!['.'] + b);
    lemma_decimal_body(seq!['.'] + b, empty, false);
    assert(unsigned_part(seq!['.'] + b) == seq!['.'] + b);
    lemma_mantissa(a, empty, true);
    assert(a + seq!['.'] + empty =~= a + seq!['.']);
    lemma_decimal_body(a + seq!['.'], empty, false);
    assert((a + seq!['.'])[0] == a[0]);
    assert(unsigned_part(a + seq!['.']) == a + seq!['.']);
    assert(unsigned_part(seq!['-'] + a) =~= a);
    assert(unsigned_part(seq!['+'] + a) =~= a);
    lemma_decimal_body(a, b, true);
    assert((a + seq!['e'] + b)[0] == a[0]);
    assert(unsigned_part(a + seq!['e'] + b) == a + seq!['e'] + b);
    lemma_decimal_body(a, seq!['-'] + b, true);
    assert(a + seq!['E'] + (seq!['-'] + b) =~= a + seq!['E', '-'] + b);
    assert((a + seq!['E', '-'] + b)[0] == a[0]);
    assert(unsigned_part(a + seq!['E', '-'] + b) == a + seq!['E', '-'] + b);
    lemma_decimal_body(ab, seq!['+'] + b, true);
    assert(ab + seq!['E'] + (seq!['+'] + b) =~= a + seq!['.'] + b + seq!['E', '+'] + b);
    assert((a + seq!['.'] + b + seq!['E', '+'] + b)[0] == a[0]);
    assert(unsigned_part(a + seq!['.'] + b + seq!['E', '+'] + b) == a + seq!['.'] + b + seq![
        'E',
        '+',
    ] + b);
}

/// Texts that do not parse as numbers: the empty text, a lone `.`, digits
/// followed by any character that is not a digit, `.`, `e` or `E`, digits
/// followed by an `e` with no exponent, and an exponent with no digits before.
pub proof fn law_non_numbers(a: Seq<char>, x: char)
    requires
        decimal_digits(a),
        !('0' <= x && x <= '9'),
        x != '.',
        x != 'e',
        x != 'E',
    ensures
        !is_number(a.push(x)),
        !is_number(Seq::empty()),
        !is_number(seq!['.']),
        !is_number(a + seq!['e']),
        !is_number(seq!['e'] + a),
{
    reveal_strlit("inf");
    reveal_strlit("infinity");
    reveal_strlit("nan");
    lemma_digits_all(a);
    let t = a.push(x);
    assert(t[0] == a[0]);
    assert(unsigned_part(t) == t);
    assert(ascii_lower(t[0]) == t[0]);
    assert forall|i: int| 0 <= i < t.len() - 1 implies t[i] != 'e' && t[i] != 'E' && t[i] != '.' by {
        assert(t[i] == a[i]);
    }
    lemma_exponent_index_first(t, t.len() as int);
    lemma_index_of_first(t, '.', t.len() as int);
    assert(t.take(t.len() as int) =~= t);
    assert(!is_digit(t[t.len() - 1]));
    let e: Seq<char> = Seq::empty();
    assert(unsigned_part(e) == e);
    assert(exponent_index(e) == 0);
    assert(e.take(0) =~= e);
    let d = seq!['.'];
    assert(unsigned_part(d) == d);
    assert(d.drop_first() =~= e);
    assert(exponent_index(d) == 1);
    assert(index_of(d, '.') == 0);
    assert(d.take(1) =~= d);
    let ae = a + seq!['e'];
    assert(ae[0] == a[0]);
    assert(unsigned_part(ae) == ae);
    assert(ascii_lower(ae[0]) == ae[0]);
    assert forall|i: int| 0 <= i < a.len() implies ae[i] != 'e' && ae[i] != 'E' by {
        assert(ae[i] == a[i]);
    }
    lemma_exponent_index_first(ae, a.len() as int);
    assert(ae.skip(a.len() + 1int) =~= e);
    let ea = seq!['e'] + a;
    assert(unsigned_part(ea) == ea);
    assert(exponent_index(ea) == 0);
    assert(ea.take(0) =~= e);
    assert(ascii_lower(ea[0]) == 'e');
}

/// A whole number of digits is a percentage exactly when it is at most 100,
/// and then that many buckets lie below it. With a fraction `a.b` it is one
/// when `a` is below 100, or is 100 and `b` all zeros; a fraction that is not
/// zero takes in one bucket more.
pub proof fn law_digit_percentages(a: Seq<char>, b: Seq<char>)
    requires
        decimal_digits(a),
        decimal_digits(b),
    ensures
        is_percentage(a) == (decimal_number(a) <= 100),
        threshold(a) == decimal_number(a),
        is_percentage(a + seq!['.'] + b) == (decimal_number(a) < 100 || (decimal_number(a) == 100
            && forall|i: int| 0 <= i < b.len() ==> b[i] == '0')),
        threshold(a + seq!['.'] + b) == decimal_number(a) + if exists|i: int|
            0 <= i < b.len() && b[i] != '0' {
            1nat
        } else {
            0nat
        },
{
    let empty = Seq::<char>::empty();
    lemma_digits_all(a);
    lemma_digits_all(b);
    lemma_mantissa(a, empty, false);
    lemma_index_of_first(a, '.', a.len() as int);
    assert(whole_part(a) =~= a);
    assert(fraction_part(a) == empty);
    assert(!some_nonzero(empty));
    let m = lemma_mantissa(a, b, true);
    assert forall|i: int| 0 <= i < a.len() implies m[i] != '.' by {
        assert(m[i] == a[i]);
    }
    lemma_index_of_first(m, '.', a.len() as int);
    assert(whole_part(m) =~= a);
    assert(fraction_part(m) =~= b);
    if exists|i: int| 0 <= i < b.len() && b[i] != '0' {
        assert(some_nonzero(b));
    } else {
        assert(!some_nonzero(b));
    }
}

} // verus!
