//! Splitting a formatted line into units, and classifying each unit.

use vstd::prelude::*;
use crate::format::{is_white_space, is_white_space_char};

verus! {

/// The maximal runs of non-whitespace characters of `s`, in order.
pub open spec fn words(s: Seq<char>) -> Seq<Seq<char>>
    decreases s.len(),
{
    if s.len() == 0 {
        seq![]
    } else {
        let w = words(s.drop_last());
        let c = s.last();
        if is_white_space(c) {
            w
        } else if s.len() >= 2 && !is_white_space(s[s.len() - 2]) {
            w.drop_last().push(w.last().push(c))
        } else {
            w.push(seq![c])
        }
    }
}

/// The characters of each unit.
pub open spec fn texts(units: Seq<&str>) -> Seq<Seq<char>> {
    units.map_values(|u: &str| u@)
}

/// Splits `s` on runs of whitespace.
pub fn tokenize<'a>(s: &'a str) -> (r: Vec<&'a str>)
    ensures
        texts(r@) == words(s@),
{
    let n = s.unicode_len();
    let mut r: Vec<&'a str> = Vec::new();
    let mut start: usize = 0;
    let mut in_word = false;
    let mut i: usize = 0;
    while i < n
        invariant
            n == s@.len(),
            i <= n,
            start <= i,
            in_word ==> start < i && words(s@.take(i as int)).len() > 0
                && texts(r@) == words(s@.take(i as int)).drop_last()
                && words(s@.take(i as int)).last() == s@.subrange(start as int, i as int)
                && !is_white_space(s@[i - 1]),
            !in_word ==> texts(r@) == words(s@.take(i as int))
                && (i > 0 ==> is_white_space(s@[i - 1])),
        decreases n - i,
    {
        let c = s.get_char(i);
        let ghost p = s@.take(i as int);
        let ghost q = s@.take(i + 1);
        proof {
            assert(q.drop_last() =~= p);
            assert(q.last() == c);
            if i > 0 {
                assert(q[q.len() - 2] == s@[i - 1]);
            }
        }
        if is_white_space_char(c) {
            if in_word {
                let ghost before = r@;
                let u = s.substring_char(start, i);
                r.push(u);
                in_word = false;
                proof {
                    assert(texts(r@) =~= texts(before).push(u@));
                }
            }
        } else {
            if !in_word {
                start = i;
                in_word = true;
            }
        }
        proof {
            if !is_white_space(c) {
                assert(s@.subrange(start as int, i + 1) =~= s@.subrange(start as int, i as int).push(c));
            }
        }
        i = i + 1;
    }
    assert(s@.take(n as int) =~= s@);
    if in_word {
        let ghost before = r@;
        let u = s.substring_char(start, n);
        r.push(u);
        assert(texts(r@) =~= texts(before).push(u@));
    }
    r
}

/// `Digit ::= [0-9]`
pub open spec fn is_digit(c: char) -> bool {
    '0' <= c && c <= '9'
}

/// `Digit*`
pub open spec fn all_digits(s: Seq<char>) -> bool {
    forall|i: int| 0 <= i < s.len() ==> is_digit(#[trigger] s[i])
}

/// `Digit+`
pub open spec fn is_digits(s: Seq<char>) -> bool {
    s.len() > 0 && all_digits(s)
}

/// `Sign ::= [+-]`
pub open spec fn is_sign(c: char) -> bool {
    c == '+' || c == '-'
}

/// `s` without one leading sign, if it has one.
pub open spec fn unsigned(s: Seq<char>) -> Seq<char> {
    if s.len() > 0 && is_sign(s[0]) {
        s.skip(1)
    } else {
        s
    }
}

/// `Digit+ | Digit+ '.' Digit* | Digit* '.' Digit+`
pub open spec fn is_decimal(s: Seq<char>) -> bool {
    is_digits(s) || exists|k: int|
        0 <= k < s.len() && #[trigger] s[k] == '.' && s.len() >= 2 && all_digits(s.take(k))
            && all_digits(s.skip(k + 1))
}

/// The exponent letter, in either case.
pub open spec fn is_exp_mark(c: char) -> bool {
    c == 'e' || c == 'E'
}

/// `'e' Sign? Digit+`, the letter in either case.
pub open spec fn is_exponent(s: Seq<char>) -> bool {
    s.len() > 0 && is_exp_mark(s[0]) && is_digits(unsigned(s.skip(1)))
}

/// `Decimal Exp?`
pub open spec fn is_number(s: Seq<char>) -> bool {
    is_decimal(s) || exists|k: int|
        0 <= k <= s.len() && is_decimal(#[trigger] s.take(k)) && is_exponent(s.skip(k))
}

/// `s` equals the lower-case ASCII word `w` up to the case of its letters.
pub open spec fn matches_ignoring_case(s: Seq<char>, w: Seq<char>) -> bool {
    s.len() == w.len() && forall|i: int|
        0 <= i < s.len() ==> s[i] == w[i] || (s[i] as u32) + 32 == #[trigger] (w[i] as u32)
}

/// `'inf' | 'infinity' | 'nan'`, letters in any case.
pub open spec fn is_special_value(s: Seq<char>) -> bool {
    matches_ignoring_case(s, seq!['i', 'n', 'f']) || matches_ignoring_case(
        s,
        seq!['i', 'n', 'f', 'i', 'n', 'i', 't', 'y'],
    ) || matches_ignoring_case(s, seq!['n', 'a', 'n'])
}

/// The literals that `f64::from_str` accepts, as its documentation gives
/// them: `Sign? ( 'inf' | 'infinity' | 'nan' | Number )`, letters in any case.
pub open spec fn is_float_literal(s: Seq<char>) -> bool {
    is_special_value(unsigned(s)) || is_number(unsigned(s))
}

fn is_digit_char(c: char) -> (r: bool)
    ensures
        r == is_digit(c),
{
    '0' <= c && c <= '9'
}

/// Whether the characters of `s` from `from` on are all digits.
fn digits_from(s: &str, from: usize) -> (r: bool)
    requires
        from <= s@.len(),
    ensures
        r == all_digits(s@.skip(from as int)),
{
    let n = s.unicode_len();
    let mut i = from;
    while i < n
        invariant
            from <= i <= n == s@.len(),
            forall|j: int| from <= j < i ==> is_digit(#[trigger] s@[j]),
        decreases n - i,
    {
        if !is_digit_char(s.get_char(i)) {
            assert(s@.skip(from as int)[i - from] == s@[i as int]);
            return false;
        }
        i = i + 1;
    }
    assert forall|j: int| 0 <= j < s@.skip(from as int).len() implies is_digit(
        #[trigger] s@.skip(from as int)[j],
    ) by {
        assert(s@.skip(from as int)[j] == s@[from + j]);
    }
    true
}

/// The number of leading digits of `s`.
fn leading_digits(s: &str) -> (r: usize)
    ensures
        r <= s@.len(),
        all_digits(s@.take(r as int)),
        r < s@.len() ==> !is_digit(s@[r as int]),
{
    let n = s.unicode_len();
    let mut i: usize = 0;
    while i < n && is_digit_char(s.get_char(i))
        invariant
            i <= n == s@.len(),
            forall|j: int| 0 <= j < i ==> is_digit(#[trigger] s@[j]),
        decreases n - i,
    {
        i = i + 1;
    }
    assert forall|j: int| 0 <= j < i implies is_digit(#[trigger] s@.take(i as int)[j]) by {
        assert(s@.take(i as int)[j] == s@[j]);
    }
    i
}

fn decimal(s: &str) -> (r: bool)
    ensures
        r == is_decimal(s@),
{
    let n = s.unicode_len();
    let i = leading_digits(s);
    if i == n {
        assert(s@.take(i as int) =~= s@);
        if n == 0 {
            assert(!is_decimal(s@));
        }
        return n > 0;
    }
    assert(!all_digits(s@));
    let c = s.get_char(i);
    if c != '.' {
        assert forall|k: int| 0 <= k < s@.len() && #[trigger] s@[k] == '.' implies !all_digits(
            s@.take(k),
        ) by {
            if k > i {
                assert(s@.take(k)[i as int] == s@[i as int]);
            }
            if k < i {
                assert(s@.take(i as int)[k] == s@[k]);
            }
        }
        return false;
    }
    let rest = digits_from(s, i + 1);
    assert forall|k: int|
        0 <= k < s@.len() && #[trigger] s@[k] == '.' && all_digits(s@.take(k)) implies k == i by {
        if k > i {
            assert(s@.take(k)[i as int] == s@[i as int]);
        }
        if k < i {
            assert(s@.take(i as int)[k] == s@[k]);
        }
    }
    if rest && n >= 2 {
        assert(s@[i as int] == '.');
    }
    rest && n >= 2
}

fn exponent(s: &str) -> (r: bool)
    ensures
        r == is_exponent(s@),
{
    let n = s.unicode_len();
    if n == 0 {
        return false;
    }
    let c = s.get_char(0);
    if !(c == 'e' || c == 'E') {
        return false;
    }
    let j: usize = if n > 1 && (s.get_char(1) == '+' || s.get_char(1) == '-') {
        2
    } else {
        1
    };
    proof {
        let t = s@.skip(1);
        if j == 2 {
            assert(t[0] == s@[1]);
            assert(t.skip(1) =~= s@.skip(2));
        } else if n > 1 {
            assert(t[0] == s@[1]);
        }
    }
    j < n && digits_from(s, j)
}

proof fn lemma_decimal_has_no_exp_mark(x: Seq<char>)
    requires
        is_decimal(x),
    ensures
        forall|j: int| 0 <= j < x.len() ==> !is_exp_mark(#[trigger] x[j]),
{
    if !is_digits(x) {
        let k = choose|k: int|
            0 <= k < x.len() && #[trigger] x[k] == '.' && x.len() >= 2 && all_digits(x.take(k))
                && all_digits(x.skip(k + 1));
        assert forall|j: int| 0 <= j < x.len() implies !is_exp_mark(#[trigger] x[j]) by {
            if j < k {
                assert(x.take(k)[j] == x[j]);
            } else if j > k {
                assert(x.skip(k + 1)[j - k - 1] == x[j]);
            }
        }
    }
}

fn number(s: &str) -> (r: bool)
    ensures
        r == is_number(s@),
{
    let n = s.unicode_len();
    let mut m: usize = 0;
    while m < n && !(s.get_char(m) == 'e' || s.get_char(m) == 'E')
        invariant
            m <= n == s@.len(),
            forall|j: int| 0 <= j < m ==> !is_exp_mark(#[trigger] s@[j]),
        decreases n - m,
    {
        m = m + 1;
    }
    if m == n {
        let r = decimal(s);
        assert forall|k: int| 0 <= k <= s@.len() && is_exponent(s@.skip(k)) implies !is_decimal(
            #[trigger] s@.take(k),
        ) by {
            assert(s@.skip(k)[0] == s@[k]);
        }
        return r;
    }
    let head = s.substring_char(0, m);
    let tail = s.substring_char(m, n);
    assert(head@ =~= s@.take(m as int));
    assert(tail@ =~= s@.skip(m as int));
    let r = decimal(head) && exponent(tail);
    proof {
        if is_decimal(s@) {
            lemma_decimal_has_no_exp_mark(s@);
        }
        assert forall|k: int|
            0 <= k <= s@.len() && is_decimal(#[trigger] s@.take(k)) && is_exponent(
                s@.skip(k),
            ) implies k == m by {
            assert(s@.skip(k)[0] == s@[k]);
            lemma_decimal_has_no_exp_mark(s@.take(k));
            if m < k {
                assert(s@.take(k)[m as int] == s@[m as int]);
            }
        }
    }
    r
}

/// Whether `s` is the lower-case ASCII word `w`, letters in any case.
fn matches_word(s: &str, w: &str) -> (r: bool)
    ensures
        r == matches_ignoring_case(s@, w@),
{
    let n = s.unicode_len();
    if n != w.unicode_len() {
        return false;
    }
    let mut i: usize = 0;
    while i < n
        invariant
            i <= n == s@.len() == w@.len(),
            forall|j: int|
                0 <= j < i ==> s@[j] == w@[j] || (s@[j] as u32) + 32 == #[trigger] (w@[j] as u32),
        decreases n - i,
    {
        let c = s.get_char(i);
        let d = w.get_char(i);
        if !(c == d || (c as u32) + 32 == (d as u32)) {
            return false;
        }
        i = i + 1;
    }
    true
}

/// Whether `s` reads as a floating-point literal.
pub fn float_literal(s: &str) -> (r: bool)
    ensures
        r == is_float_literal(s@),
{
    let n = s.unicode_len();
    let t = if n > 0 && (s.get_char(0) == '+' || s.get_char(0) == '-') {
        s.substring_char(1, n)
    } else {
        s.substring_char(0, n)
    };
    assert(t@ =~= unsigned(s@));
    proof {
        reveal_strlit("inf");
        reveal_strlit("infinity");
        reveal_strlit("nan");
        assert("inf"@ =~= seq!['i', 'n', 'f']);
        assert("infinity"@ =~= seq!['i', 'n', 'f', 'i', 'n', 'i', 't', 'y']);
        assert("nan"@ =~= seq!['n', 'a', 'n']);
    }
    matches_word(t, "inf") || matches_word(t, "infinity") || matches_word(t, "nan") || number(t)
}

/// A trailing space adds no word.
pub proof fn lemma_words_push_space(x: Seq<char>)
    ensures
        words(x.push(' ')) == words(x),
{
    assert(x.push(' ').drop_last() =~= x);
}

/// Appending a run of non-whitespace characters after whitespace (or to
/// nothing) adds the run as one more word.
pub proof fn lemma_words_append(x: Seq<char>, w: Seq<char>)
    requires
        w.len() > 0,
        forall|i: int| 0 <= i < w.len() ==> !is_white_space(#[trigger] w[i]),
        x.len() == 0 || is_white_space(x.last()),
    ensures
        words(x + w) == words(x).push(w),
    decreases w.len(),
{
    let c = w.last();
    let e = w.drop_last();
    assert((x + w).drop_last() =~= x + e);
    assert((x + w).last() == c);
    if e.len() == 0 {
        assert(x + e =~= x);
        assert(w =~= seq![c]);
    } else {
        lemma_words_append(x, e);
        assert((x + w)[(x + w).len() - 2] == e.last());
        assert(e.push(c) =~= w);
        assert(words(x).push(e).drop_last() =~= words(x));
    }
}

} // verus!
