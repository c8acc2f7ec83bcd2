//! Spacing of a raw calculator line into whitespace-separated units.

use vstd::prelude::*;

verus! {

/// An ASCII letter; runs of letters form function names.
pub open spec fn is_letter(c: char) -> bool {
    ('a' <= c && c <= 'z') || ('A' <= c && c <= 'Z')
}

/// A character of a numeral: a decimal digit or the decimal point.
pub open spec fn is_numeral(c: char) -> bool {
    ('0' <= c && c <= '9') || c == '.'
}

/// A binary operator character.
pub open spec fn is_operator(c: char) -> bool {
    c == '+' || c == '-' || c == '*' || c == '/'
}

/// The characters that `char::is_whitespace` accepts (Unicode `White_Space`).
pub open spec fn is_white_space(c: char) -> bool {
    ('\t' <= c && c <= '\r') || c == ' ' || c == '\u{85}' || c == '\u{a0}' || c == '\u{1680}'
        || ('\u{2000}' <= c && c <= '\u{200a}') || c == '\u{2028}' || c == '\u{2029}'
        || c == '\u{202f}' || c == '\u{205f}' || c == '\u{3000}'
}

/// State of the left-to-right scan: the text emitted so far, whether the last
/// kept character was part of a numeral, and the pending run of letters.
pub struct ScanState {
    pub out: Seq<char>,
    pub after_numeral: bool,
    pub word: Seq<char>,
}

/// Emits a pending word followed by one space.
pub open spec fn flush(out: Seq<char>, word: Seq<char>) -> Seq<char> {
    if word.len() == 0 {
        out
    } else {
        out + word + seq![' ']
    }
}

/// Whether `s` ends in a space (never true of empty text).
pub open spec fn ends_with_space(s: Seq<char>) -> bool {
    s.len() > 0 && s.last() == ' '
}

/// One character of the scan.
pub open spec fn scan_step(st: ScanState, c: char) -> ScanState {
    if is_letter(c) {
        ScanState { out: st.out, after_numeral: false, word: st.word.push(c) }
    } else if is_numeral(c) {
        let o = flush(st.out, st.word);
        let o = if !st.after_numeral && o.len() > 0 && !ends_with_space(o) {
            o.push(' ')
        } else {
            o
        };
        ScanState { out: o.push(c), after_numeral: true, word: seq![] }
    } else if is_operator(c) {
        let o = flush(st.out, st.word);
        let o = if st.after_numeral && !ends_with_space(o) {
            o.push(' ')
        } else {
            o
        };
        ScanState { out: o.push(c).push(' '), after_numeral: false, word: seq![] }
    } else {
        st
    }
}

/// The state after scanning all of `s` from the left.
pub open spec fn scan(s: Seq<char>) -> ScanState
    decreases s.len(),
{
    if s.len() == 0 {
        ScanState { out: seq![], after_numeral: false, word: seq![] }
    } else {
        scan_step(scan(s.drop_last()), s.last())
    }
}

/// The scanned text with the last word emitted, before trimming.
pub open spec fn spaced(s: Seq<char>) -> Seq<char> {
    scan(s).out + scan(s).word
}

/// `s` without trailing whitespace.
pub open spec fn trim_end(s: Seq<char>) -> Seq<char>
    decreases s.len(),
{
    if s.len() > 0 && is_white_space(s.last()) {
        trim_end(s.drop_last())
    } else {
        s
    }
}

/// `s` without leading whitespace.
pub open spec fn trim_start(s: Seq<char>) -> Seq<char>
    decreases s.len(),
{
    if s.len() > 0 && is_white_space(s[0]) {
        trim_start(s.skip(1))
    } else {
        s
    }
}

/// `s` without leading and trailing whitespace.
pub open spec fn trim(s: Seq<char>) -> Seq<char> {
    trim_start(trim_end(s))
}

/// The formatted form of a raw line: each numeral is set off by a space from
/// what precedes it, each operator stands between single spaces, each run of
/// letters is followed by a space when a numeral or operator comes next,
/// other characters are dropped, and the ends are trimmed.
pub open spec fn formatted(s: Seq<char>) -> Seq<char> {
    trim(spaced(s))
}

/// Whether `c` is whitespace (see `is_white_space`).
pub fn is_white_space_char(c: char) -> (r: bool)
    ensures
        r == is_white_space(c),
{
    ('\t' <= c && c <= '\r') || c == ' ' || c == '\u{85}' || c == '\u{a0}' || c == '\u{1680}'
        || ('\u{2000}' <= c && c <= '\u{200a}') || c == '\u{2028}' || c == '\u{2029}'
        || c == '\u{202f}' || c == '\u{205f}' || c == '\u{3000}'
}

/// Whether `c` is an ASCII letter.
pub fn is_letter_char(c: char) -> (r: bool)
    ensures
        r == is_letter(c),
{
    ('a' <= c && c <= 'z') || ('A' <= c && c <= 'Z')
}

/// Whether `c` is a decimal digit or the decimal point.
pub fn is_numeral_char(c: char) -> (r: bool)
    ensures
        r == is_numeral(c),
{
    ('0' <= c && c <= '9') || c == '.'
}

/// Whether `c` is one of `+ - * /`.
pub fn is_operator_char(c: char) -> (r: bool)
    ensures
        r == is_operator(c),
{
    c == '+' || c == '-' || c == '*' || c == '/'
}

/// Appends one space.
fn push_space(out: &mut String)
    ensures
        final(out)@ == old(out)@.push(' '),
{
    proof {
        reveal_strlit(" ");
    }
    out.append(" ");
    assert(final(out)@ =~= old(out)@.push(' '));
}

/// Spaces a raw line into units: numerals, words and operators, separated by
/// single spaces; other characters are dropped and the result is trimmed.
pub fn format_text(expr: &str) -> (r: String)
    ensures
        r@ == formatted(expr@),
{
    let n = expr.unicode_len();
    let mut out = String::new();
    let mut word = String::new();
    let mut after_numeral = false;
    // Mirrors of `out` and `word` that the loop tests.
    let mut out_empty = true;
    let mut out_space = false;
    let mut word_empty = true;
    let mut i: usize = 0;
    while i < n
        invariant
            n == expr@.len(),
            i <= n,
            scan(expr@.take(i as int)) == (ScanState { out: out@, after_numeral, word: word@ }),
            out_empty == (out@.len() == 0),
            out_space == ends_with_space(out@),
            word_empty == (word@.len() == 0),
        decreases n - i,
    {
        let c = expr.get_char(i);
        let ghost prev = ScanState { out: out@, after_numeral, word: word@ };
        proof {
            assert(expr@.take(i + 1).drop_last() =~= expr@.take(i as int));
            assert(expr@.take(i + 1).last() == c);
        }
        let unit = expr.substring_char(i, i + 1);
        assert(unit@ =~= seq![c]);
        if is_letter_char(c) {
            word.append(unit);
            word_empty = false;
            after_numeral = false;
        } else if is_numeral_char(c) {
            if !word_empty {
                out.append(word.as_str());
                push_space(&mut out);
                word = String::new();
                word_empty = true;
                out_empty = false;
                out_space = true;
            }
            if !after_numeral && !out_empty && !out_space {
                push_space(&mut out);
            }
            out.append(unit);
            out_empty = false;
            out_space = false;
            after_numeral = true;
        } else if is_operator_char(c) {
            if !word_empty {
                out.append(word.as_str());
                push_space(&mut out);
                word = String::new();
                word_empty = true;
                out_empty = false;
                out_space = true;
            }
            if after_numeral && !out_space {
                push_space(&mut out);
            }
            out.append(unit);
            push_space(&mut out);
            out_empty = false;
            out_space = true;
            after_numeral = false;
        }
        proof {
            let next = scan_step(prev, c);
            assert(out@ =~= next.out);
            assert(word@ =~= next.word);
        }
        i = i + 1;
    }
    assert(expr@.take(n as int) =~= expr@);
    out.append(word.as_str());
    trim_text(out.as_str())
}

proof fn lemma_trim_end_take(s: Seq<char>, end: int)
    requires
        0 <= end <= s.len(),
        forall|j: int| end <= j < s.len() ==> is_white_space(#[trigger] s[j]),
        end == 0 || !is_white_space(s[end - 1]),
    ensures
        trim_end(s) == s.take(end),
    decreases s.len(),
{
    if s.len() > end {
        assert(is_white_space(s.last()));
        let t = s.drop_last();
        assert forall|j: int| end <= j < t.len() implies is_white_space(#[trigger] t[j]) by {
            assert(t[j] == s[j]);
        }
        lemma_trim_end_take(t, end);
        assert(t.take(end) =~= s.take(end));
    } else {
        assert(s.take(end) =~= s);
    }
}

proof fn lemma_trim_start_skip(s: Seq<char>, start: int)
    requires
        0 <= start <= s.len(),
        forall|j: int| 0 <= j < start ==> is_white_space(#[trigger] s[j]),
        start == s.len() || !is_white_space(s[start]),
    ensures
        trim_start(s) == s.skip(start),
    decreases start,
{
    if start > 0 {
        let t = s.skip(1);
        assert forall|j: int| 0 <= j < start - 1 implies is_white_space(#[trigger] t[j]) by {
            assert(t[j] == s[j + 1]);
        }
        if start < s.len() {
            assert(t[start - 1] == s[start]);
        }
        lemma_trim_start_skip(t, start - 1);
        assert(t.skip(start - 1) =~= s.skip(start));
    } else {
        assert(s.skip(0) =~= s);
    }
}

/// Removes leading and trailing whitespace.
pub fn trim_text(s: &str) -> (r: String)
    ensures
        r@ == trim(s@),
{
    let n = s.unicode_len();
    let mut end: usize = n;
    while end > 0 && is_white_space_char(s.get_char(end - 1))
        invariant
            end <= n == s@.len(),
            forall|j: int| end <= j < n ==> is_white_space(#[trigger] s@[j]),
        decreases end,
    {
        end = end - 1;
    }
    proof {
        lemma_trim_end_take(s@, end as int);
    }
    let mut start: usize = 0;
    while start < end && is_white_space_char(s.get_char(start))
        invariant
            start <= end <= n == s@.len(),
            forall|j: int| 0 <= j < start ==> is_white_space(#[trigger] s@[j]),
        decreases end - start,
    {
        start = start + 1;
    }
    let ghost t = s@.take(end as int);
    proof {
        assert forall|j: int| 0 <= j < start implies is_white_space(#[trigger] t[j]) by {
            assert(t[j] == s@[j]);
        }
        if start < end {
            assert(t[start as int] == s@[start as int]);
        }
        lemma_trim_start_skip(t, start as int);
        assert(t.skip(start as int) =~= s@.subrange(start as int, end as int));
    }
    String::from_str(s.substring_char(start, end))
}

/// A character that the scan keeps; all others are dropped.
pub open spec fn is_kept(c: char) -> bool {
    is_letter(c) || is_numeral(c) || is_operator(c)
}

proof fn lemma_scan_push(x: Seq<char>, c: char)
    ensures
        scan(x.push(c)) == scan_step(scan(x), c),
{
    assert(x.push(c).drop_last() =~= x);
}

proof fn lemma_scan_drop_first(t: Seq<char>, w: char)
    requires
        !is_kept(w),
    ensures
        scan(seq![w] + t) == scan(t),
    decreases t.len(),
{
    if t.len() == 0 {
        assert(seq![w] + t =~= Seq::<char>::empty().push(w));
        lemma_scan_push(Seq::<char>::empty(), w);
    } else {
        let u = t.drop_last();
        let c = t.last();
        lemma_scan_drop_first(u, w);
        assert(seq![w] + t =~= (seq![w] + u).push(c));
        assert(u.push(c) =~= t);
        lemma_scan_push(seq![w] + u, c);
        lemma_scan_push(u, c);
    }
}

proof fn lemma_scan_trim_end(s: Seq<char>)
    ensures
        scan(trim_end(s)) == scan(s),
    decreases s.len(),
{
    if s.len() > 0 && is_white_space(s.last()) {
        lemma_scan_trim_end(s.drop_last());
    }
}

proof fn lemma_scan_trim_start(s: Seq<char>)
    ensures
        scan(trim_start(s)) == scan(s),
    decreases s.len(),
{
    if s.len() > 0 && is_white_space(s[0]) {
        lemma_scan_trim_start(s.skip(1));
        assert(seq![s[0]] + s.skip(1) =~= s);
        lemma_scan_drop_first(s.skip(1), s[0]);
    }
}

/// Scanning the spaced text of a line gives the same state as scanning the
/// line: the scan only adds spaces, which the next scan drops.
proof fn lemma_scan_spaced(s: Seq<char>)
    ensures
        scan(spaced(s)) == scan(s),
    decreases s.len(),
{
    if s.len() > 0 {
        let p = s.drop_last();
        let c = s.last();
        lemma_scan_spaced(p);
        let st = scan(p);
        let x = spaced(p);
        assert(scan(s) == scan_step(st, c));
        if is_letter(c) {
            assert(spaced(s) =~= x.push(c));
            lemma_scan_push(x, c);
        } else if is_numeral(c) || is_operator(c) {
            let o = flush(st.out, st.word);
            if st.word.len() == 0 {
                assert(o =~= x);
            } else {
                assert(o =~= x.push(' '));
                lemma_scan_push(x, ' ');
            }
            assert(scan(o) == st);
            let cond = if is_numeral(c) {
                !st.after_numeral && o.len() > 0 && !ends_with_space(o)
            } else {
                st.after_numeral && !ends_with_space(o)
            };
            let o2 = if cond {
                o.push(' ')
            } else {
                o
            };
            lemma_scan_push(o, ' ');
            assert(scan(o2) == st);
            lemma_scan_push(o2, c);
            if is_numeral(c) {
                assert(spaced(s) =~= o2.push(c));
            } else {
                assert(spaced(s) =~= o2.push(c).push(' '));
                lemma_scan_push(o2.push(c), ' ');
            }
        } else {
            assert(spaced(s) == x);
        }
    }
}

/// Formatting is idempotent: formatting an already formatted line gives it back
/// unchanged.
pub proof fn lemma_format_idempotent(s: Seq<char>)
    ensures
        formatted(formatted(s)) == formatted(s),
{
    let x = spaced(s);
    lemma_scan_spaced(s);
    lemma_scan_trim_end(x);
    lemma_scan_trim_start(trim_end(x));
    assert(spaced(formatted(s)) == x);
}

/// Scanning a run of numeral characters after a numeral, a space or nothing
/// appends the run to the output.
pub proof fn lemma_scan_numerals(x: Seq<char>, d: Seq<char>)
    requires
        d.len() > 0,
        forall|i: int| 0 <= i < d.len() ==> is_numeral(#[trigger] d[i]),
        scan(x).word.len() == 0,
        scan(x).after_numeral || scan(x).out.len() == 0 || ends_with_space(scan(x).out),
    ensures
        scan(x + d) == (ScanState { out: scan(x).out + d, after_numeral: true, word: seq![] }),
    decreases d.len(),
{
    let c = d.last();
    let e = d.drop_last();
    assert((x + d).drop_last() =~= x + e);
    assert((x + d).last() == c);
    if e.len() == 0 {
        assert(x + e =~= x);
        assert(scan(x).out + d =~= scan(x).out.push(c));
    } else {
        lemma_scan_numerals(x, e);
        assert(scan(x).out + d =~= (scan(x).out + e).push(c));
    }
}

/// Scanning an operator character right after a numeral emits it between
/// single spaces.
pub proof fn lemma_scan_operator(x: Seq<char>, c: char)
    requires
        is_operator(c),
        scan(x).word.len() == 0,
        scan(x).after_numeral,
        scan(x).out.len() > 0,
        is_numeral(scan(x).out.last()),
    ensures
        scan(x.push(c)) == (ScanState {
            out: scan(x).out + seq![' ', c, ' '],
            after_numeral: false,
            word: seq![],
        }),
{
    assert(x.push(c).drop_last() =~= x);
    assert(scan(x).out.push(' ').push(c).push(' ') =~= scan(x).out + seq![' ', c, ' ']);
}

/// Scanning a run of letters from the start only collects a word.
pub proof fn lemma_scan_letters(w: Seq<char>)
    requires
        forall|i: int| 0 <= i < w.len() ==> is_letter(#[trigger] w[i]),
    ensures
        scan(w) == (ScanState { out: seq![], after_numeral: false, word: w }),
    decreases w.len(),
{
    if w.len() == 0 {
        assert(w =~= Seq::<char>::empty());
    } else {
        lemma_scan_letters(w.drop_last());
        assert(w.drop_last().push(w.last()) =~= w);
    }
}

/// A numeral right after a word sets the word off by one space.
pub proof fn lemma_scan_word_numerals(w: Seq<char>, a: Seq<char>)
    requires
        w.len() > 0,
        forall|i: int| 0 <= i < w.len() ==> is_letter(#[trigger] w[i]),
        a.len() > 0,
        forall|i: int| 0 <= i < a.len() ==> is_numeral(#[trigger] a[i]),
    ensures
        scan(w + a) == (ScanState { out: w + seq![' '] + a, after_numeral: true, word: seq![] }),
{
    lemma_scan_letters(w);
    let x = w.push(a[0]);
    lemma_scan_push(w, a[0]);
    assert(scan(x).out =~= w + seq![' ', a[0]]);
    if a.len() == 1 {
        assert(w + a =~= x);
        assert(w + seq![' '] + a =~= w + seq![' ', a[0]]);
    } else {
        let rest = a.skip(1);
        assert forall|i: int| 0 <= i < rest.len() implies is_numeral(#[trigger] rest[i]) by {
            assert(rest[i] == a[i + 1]);
        }
        lemma_scan_numerals(x, rest);
        assert(x + rest =~= w + a);
        assert(scan(x).out + rest =~= w + seq![' '] + a);
    }
}

} // verus!
