//! Tokenization: splitting an expression on whitespace, and classifying
//! the resulting tokens (numeric literals, operators, parentheses).

use vstd::prelude::*;

verus! {

// ---------------------------------------------------------------------------
// Whitespace
// ---------------------------------------------------------------------------

/// The Unicode white-space characters: the set on which an expression is
/// split into tokens.
pub open spec fn spec_is_space(c: char) -> bool {
    let u = c as u32;
    (9 <= u && u <= 13) || u == 32 || u == 0x85 || u == 0xA0 || u == 0x1680
        || (0x2000 <= u && u <= 0x200A) || u == 0x2028 || u == 0x2029 || u == 0x202F
        || u == 0x205F || u == 0x3000
}

/// Decides `spec_is_space`.
pub fn is_space(c: char) -> (r: bool)
    ensures
        r == spec_is_space(c),
{
    let u = c as u32;
    (9 <= u && u <= 13) || u == 32 || u == 0x85 || u == 0xA0 || u == 0x1680
        || (0x2000 <= u && u <= 0x200A) || u == 0x2028 || u == 0x2029 || u == 0x202F
        || u == 0x205F || u == 0x3000
}

// ---------------------------------------------------------------------------
// Splitting on whitespace
// ---------------------------------------------------------------------------

/// One step of the token scan: extend or flush the current token.
pub open spec fn tok_step(acc: (Seq<Seq<char>>, Seq<char>), c: char) -> (Seq<Seq<char>>, Seq<char>) {
    if spec_is_space(c) {
        if acc.1.len() == 0 {
            acc
        } else {
            (acc.0.push(acc.1), Seq::empty())
        }
    } else {
        (acc.0, acc.1.push(c))
    }
}

/// The token scan over a whole character sequence: the finished tokens so
/// far, and the (possibly empty) token still being read.
pub open spec fn tok_scan(s: Seq<char>) -> (Seq<Seq<char>>, Seq<char>)
    decreases s.len(),
{
    if s.len() == 0 {
        (Seq::empty(), Seq::empty())
    } else {
        tok_step(tok_scan(s.drop_last()), s.last())
    }
}

/// The whitespace-separated tokens of `s`, in input order.
pub open spec fn spec_tokens(s: Seq<char>) -> Seq<Seq<char>> {
    let (done, cur) = tok_scan(s);
    if cur.len() == 0 {
        done
    } else {
        done.push(cur)
    }
}

proof fn lemma_tok_scan_step(s: Seq<char>, i: int)
    requires
        0 <= i < s.len(),
    ensures
        tok_scan(s.take(i + 1)) == tok_step(tok_scan(s.take(i)), s[i]),
{
    assert(s.take(i + 1).drop_last() =~= s.take(i));
    assert(s.take(i + 1).last() == s[i]);
}

proof fn lemma_tok_scan_nospace(t: Seq<char>)
    requires
        forall|k: int| 0 <= k < t.len() ==> !spec_is_space(#[trigger] t[k]),
    ensures
        tok_scan(t) == (Seq::<Seq<char>>::empty(), t),
    decreases t.len(),
{
    if t.len() == 0 {
        assert(t =~= Seq::<char>::empty());
    } else {
        assert forall|k: int| 0 <= k < t.drop_last().len() implies !spec_is_space(
            #[trigger] t.drop_last()[k],
        ) by {
            assert(t.drop_last()[k] == t[k]);
        }
        lemma_tok_scan_nospace(t.drop_last());
        assert(!spec_is_space(t.last()));
        assert(t.drop_last().push(t.last()) =~= t);
    }
}

/// A non-empty string without whitespace is one single token.
pub proof fn lemma_tokens_single(t: Seq<char>)
    requires
        t.len() > 0,
        forall|k: int| 0 <= k < t.len() ==> !spec_is_space(#[trigger] t[k]),
    ensures
        spec_tokens(t) == seq![t],
{
    lemma_tok_scan_nospace(t);
    assert(spec_tokens(t) =~= seq![t]);
}

/// Appending one character steps the token scan.
proof fn lemma_tok_scan_snoc(x: Seq<char>, c: char)
    ensures
        tok_scan(x + seq![c]) == tok_step(tok_scan(x), c),
{
    assert((x + seq![c]).drop_last() =~= x);
    assert((x + seq![c]).last() == c);
}

/// Appended non-space characters only extend the current token.
pub proof fn lemma_tok_scan_extend(x: Seq<char>, t: Seq<char>)
    requires
        forall|k: int| 0 <= k < t.len() ==> !spec_is_space(#[trigger] t[k]),
    ensures
        tok_scan(x + t) == (tok_scan(x).0, tok_scan(x).1 + t),
    decreases t.len(),
{
    if t.len() == 0 {
        assert(x + t =~= x);
        assert(tok_scan(x).1 + t =~= tok_scan(x).1);
    } else {
        assert forall|k: int| 0 <= k < t.drop_last().len() implies !spec_is_space(
            #[trigger] t.drop_last()[k],
        ) by {
            assert(t.drop_last()[k] == t[k]);
        }
        lemma_tok_scan_extend(x, t.drop_last());
        lemma_tok_scan_snoc(x + t.drop_last(), t.last());
        assert(x + t =~= (x + t.drop_last()) + seq![t.last()]);
        assert(!spec_is_space(t.last()));
        assert((tok_scan(x).1 + t.drop_last()).push(t.last()) =~= tok_scan(x).1 + t);
    }
}

/// An appended space flushes the scan: the state after `x` and one space
/// holds exactly the tokens of `x`, with nothing half-read.
pub proof fn lemma_tok_scan_flush(x: Seq<char>)
    ensures
        tok_scan(x + seq![' ']) == (spec_tokens(x), Seq::<char>::empty()),
{
    lemma_tok_scan_snoc(x, ' ');
    assert(spec_is_space(' '));
}

/// Splits `s` into its whitespace-separated tokens.
pub fn split_tokens(s: &str) -> (toks: Vec<String>)
    ensures
        toks.deep_view() == spec_tokens(s@),
{
    let n = s.unicode_len();
    let mut toks: Vec<String> = Vec::new();
    let mut start: usize = 0;
    let mut in_tok: bool = false;
    let mut i: usize = 0;
    while i < n
        invariant
            n == s@.len(),
            i <= n,
            in_tok ==> start < i,
            tok_scan(s@.take(i as int)) == (
                toks.deep_view(),
                if in_tok {
                    s@.subrange(start as int, i as int)
                } else {
                    Seq::<char>::empty()
                },
            ),
        decreases n - i,
    {
        proof {
            lemma_tok_scan_step(s@, i as int);
        }
        let c = s.get_char(i);
        if is_space(c) {
            if in_tok {
                let tok = s.substring_char(start, i).to_owned();
                let ghost old_toks = toks.deep_view();
                toks.push(tok);
                proof {
                    assert(toks.deep_view() =~= old_toks.push(tok@));
                }
                in_tok = false;
            }
        } else {
            if !in_tok {
                in_tok = true;
                start = i;
            }
            proof {
                assert(s@.subrange(start as int, i + 1) =~= if start < i {
                    s@.subrange(start as int, i as int).push(s@[i as int])
                } else {
                    Seq::<char>::empty().push(s@[i as int])
                });
            }
        }
        i += 1;
    }
    proof {
        assert(s@.take(n as int) =~= s@);
    }
    if in_tok {
        let tok = s.substring_char(start, n).to_owned();
        let ghost old_toks = toks.deep_view();
        toks.push(tok);
        proof {
            assert(toks.deep_view() =~= old_toks.push(tok@));
        }
    }
    toks
}

// ---------------------------------------------------------------------------
// Numeric literals
// ---------------------------------------------------------------------------
//
// A token is numeric when single-precision floating-point parsing accepts
// it.  The accepted strings are, by that parser's documented grammar:
// an optional sign, then `inf`, `infinity` or `nan` (case-insensitive), or
// a mantissa (digits, possibly with one point and digits on at least one
// side) with an optional exponent (`e` or `E`, an optional sign, digits).

pub open spec fn spec_is_digit(c: char) -> bool {
    48 <= c as u32 && c as u32 <= 57
}

pub open spec fn spec_is_sign(c: char) -> bool {
    c == '+' || c == '-'
}

pub open spec fn spec_is_exp_mark(c: char) -> bool {
    c == 'e' || c == 'E'
}

/// `c` equals the lower-case letter `lower`, ignoring case.
pub open spec fn ci_eq(c: char, lower: char) -> bool {
    c == lower || c as u32 + 32 == lower as u32
}

/// Every character in `[lo, hi)` is a decimal digit.
pub open spec fn digits_between(s: Seq<char>, lo: int, hi: int) -> bool {
    forall|k: int| lo <= k < hi ==> spec_is_digit(#[trigger] s[k])
}

/// `[lo, hi)` is a non-empty run of decimal digits.
pub open spec fn digit_run(s: Seq<char>, lo: int, hi: int) -> bool {
    lo < hi && digits_between(s, lo, hi)
}

/// `[lo, hi)` is a mantissa: digits, or digits with one point and at least
/// one digit overall.
pub open spec fn mantissa_between(s: Seq<char>, lo: int, hi: int) -> bool {
    digit_run(s, lo, hi) || (exists|d: int|
        lo <= d < hi && #[trigger] s[d] == '.' && hi - lo >= 2 && digits_between(s, lo, d)
            && digits_between(s, d + 1, hi))
}

/// `[lo, hi)` is an exponent body: an optional sign, then digits.
pub open spec fn exp_between(s: Seq<char>, lo: int, hi: int) -> bool {
    if lo < hi && spec_is_sign(s[lo]) {
        digit_run(s, lo + 1, hi)
    } else {
        digit_run(s, lo, hi)
    }
}

/// `[lo, hi)` is a mantissa with an optional exponent part.
pub open spec fn number_between(s: Seq<char>, lo: int, hi: int) -> bool {
    mantissa_between(s, lo, hi) || (exists|e: int|
        lo <= e < hi && spec_is_exp_mark(#[trigger] s[e]) && mantissa_between(s, lo, e)
            && exp_between(s, e + 1, hi))
}

pub open spec fn inf_between(s: Seq<char>, lo: int, hi: int) -> bool {
    hi - lo == 3 && ci_eq(s[lo], 'i') && ci_eq(s[lo + 1], 'n') && ci_eq(s[lo + 2], 'f')
}

pub open spec fn infinity_between(s: Seq<char>, lo: int, hi: int) -> bool {
    hi - lo == 8 && ci_eq(s[lo], 'i') && ci_eq(s[lo + 1], 'n') && ci_eq(s[lo + 2], 'f')
        && ci_eq(s[lo + 3], 'i') && ci_eq(s[lo + 4], 'n') && ci_eq(s[lo + 5], 'i')
        && ci_eq(s[lo + 6], 't') && ci_eq(s[lo + 7], 'y')
}

pub open spec fn nan_between(s: Seq<char>, lo: int, hi: int) -> bool {
    hi - lo == 3 && ci_eq(s[lo], 'n') && ci_eq(s[lo + 1], 'a') && ci_eq(s[lo + 2], 'n')
}

/// `[lo, hi)` is a complete numeric literal.
pub open spec fn numeric_between(s: Seq<char>, lo: int, hi: int) -> bool {
    let st = if lo < hi && spec_is_sign(s[lo]) {
        lo + 1
    } else {
        lo
    };
    inf_between(s, st, hi) || infinity_between(s, st, hi) || nan_between(s, st, hi)
        || number_between(s, st, hi)
}

/// The token `t` is a numeric literal.
pub open spec fn spec_is_numeric(t: Seq<char>) -> bool {
    numeric_between(t, 0, t.len() as int)
}

fn is_digit(c: char) -> (r: bool)
    ensures
        r == spec_is_digit(c),
{
    let u = c as u32;
    48 <= u && u <= 57
}

fn ci(c: char, lower: char) -> (r: bool)
    ensures
        r == ci_eq(c, lower),
{
    c == lower || c as u32 + 32 == lower as u32
}

fn digits_span(t: &str, lo: usize, hi: usize) -> (r: bool)
    requires
        lo <= hi <= t@.len(),
    ensures
        r == digits_between(t@, lo as int, hi as int),
{
    let mut k = lo;
    while k < hi
        invariant
            lo <= k <= hi <= t@.len(),
            digits_between(t@, lo as int, k as int),
        decreases hi - k,
    {
        if !is_digit(t.get_char(k)) {
            return false;
        }
        k += 1;
    }
    true
}

fn find_dot(t: &str, lo: usize, hi: usize) -> (r: Option<usize>)
    requires
        lo <= hi <= t@.len(),
    ensures
        match r {
            Some(d) => lo <= d < hi && t@[d as int] == '.' && (forall|k: int|
                lo <= k < d ==> #[trigger] t@[k] != '.'),
            None => forall|k: int| lo <= k < hi ==> #[trigger] t@[k] != '.',
        },
{
    let mut k = lo;
    while k < hi
        invariant
            lo <= k <= hi <= t@.len(),
            forall|j: int| lo <= j < k ==> #[trigger] t@[j] != '.',
        decreases hi - k,
    {
        if t.get_char(k) == '.' {
            return Some(k);
        }
        k += 1;
    }
    None
}

fn find_exp(t: &str, lo: usize, hi: usize) -> (r: Option<usize>)
    requires
        lo <= hi <= t@.len(),
    ensures
        match r {
            Some(e) => lo <= e < hi && spec_is_exp_mark(t@[e as int]) && (forall|k: int|
                lo <= k < e ==> !spec_is_exp_mark(#[trigger] t@[k])),
            None => forall|k: int| lo <= k < hi ==> !spec_is_exp_mark(#[trigger] t@[k]),
        },
{
    let mut k = lo;
    while k < hi
        invariant
            lo <= k <= hi <= t@.len(),
            forall|j: int| lo <= j < k ==> !spec_is_exp_mark(#[trigger] t@[j]),
        decreases hi - k,
    {
        let c = t.get_char(k);
        if c == 'e' || c == 'E' {
            return Some(k);
        }
        k += 1;
    }
    None
}

/// Every character of a mantissa is a digit or the point.
proof fn lemma_mantissa_chars(s: Seq<char>, lo: int, hi: int, k: int)
    requires
        mantissa_between(s, lo, hi),
        lo <= k < hi,
    ensures
        spec_is_digit(s[k]) || s[k] == '.',
{
    if !digit_run(s, lo, hi) {
        let d = choose|d: int|
            lo <= d < hi && #[trigger] s[d] == '.' && hi - lo >= 2 && digits_between(s, lo, d)
                && digits_between(s, d + 1, hi);
        if k < d {
            assert(spec_is_digit(s[k]));
        } else if k > d {
            assert(spec_is_digit(s[k]));
        }
    }
}

fn mantissa_span(t: &str, lo: usize, hi: usize) -> (r: bool)
    requires
        lo <= hi <= t@.len(),
    ensures
        r == mantissa_between(t@, lo as int, hi as int),
{
    match find_dot(t, lo, hi) {
        None => {
            if lo < hi {
                digits_span(t, lo, hi)
            } else {
                false
            }
        },
        Some(d) => {
            let r = hi - lo >= 2 && digits_span(t, lo, d) && digits_span(t, d + 1, hi);
            proof {
                if !r && mantissa_between(t@, lo as int, hi as int) {
                    assert(!digit_run(t@, lo as int, hi as int)) by {
                        assert(!spec_is_digit(t@[d as int]));
                    }
                    let d2 = choose|d2: int|
                        lo <= d2 < hi && #[trigger] t@[d2] == '.' && hi - lo >= 2
                            && digits_between(t@, lo as int, d2) && digits_between(
                            t@,
                            d2 + 1,
                            hi as int,
                        );
                    if d2 > d {
                        assert(spec_is_digit(t@[d as int]));
                        assert(false);
                    }
                    assert(d2 == d);
                    assert(false);
                }
            }
            r
        },
    }
}

fn exp_span(t: &str, lo: usize, hi: usize) -> (r: bool)
    requires
        lo <= hi <= t@.len(),
    ensures
        r == exp_between(t@, lo as int, hi as int),
{
    let mut st = lo;
    if lo < hi {
        let c = t.get_char(lo);
        if c == '+' || c == '-' {
            st = lo + 1;
        }
    }
    st < hi && digits_span(t, st, hi)
}

fn number_span(t: &str, lo: usize, hi: usize) -> (r: bool)
    requires
        lo <= hi <= t@.len(),
    ensures
        r == number_between(t@, lo as int, hi as int),
{
    match find_exp(t, lo, hi) {
        None => {
            let r = mantissa_span(t, lo, hi);
            proof {
                if !r && number_between(t@, lo as int, hi as int) {
                    let e = choose|e: int|
                        lo <= e < hi && spec_is_exp_mark(#[trigger] t@[e]) && mantissa_between(
                            t@,
                            lo as int,
                            e,
                        ) && exp_between(t@, e + 1, hi as int);
                    assert(!spec_is_exp_mark(t@[e]));
                    assert(false);
                }
            }
            r
        },
        Some(e) => {
            let r = mantissa_span(t, lo, e) && exp_span(t, e + 1, hi);
            proof {
                let ei = e as int;
                if r {
                    assert(number_between(t@, lo as int, hi as int));
                } else if number_between(t@, lo as int, hi as int) {
                    if mantissa_between(t@, lo as int, hi as int) {
                        lemma_mantissa_chars(t@, lo as int, hi as int, ei);
                        assert(false);
                    }
                    let e2 = choose|e2: int|
                        lo <= e2 < hi && spec_is_exp_mark(#[trigger] t@[e2]) && mantissa_between(
                            t@,
                            lo as int,
                            e2,
                        ) && exp_between(t@, e2 + 1, hi as int);
                    if e2 > ei {
                        lemma_mantissa_chars(t@, lo as int, e2, ei);
                        assert(false);
                    }
                    assert(e2 == ei);
                    assert(false);
                }
            }
            r
        },
    }
}

fn word_inf(t: &str, lo: usize, hi: usize) -> (r: bool)
    requires
        lo <= hi <= t@.len(),
    ensures
        r == inf_between(t@, lo as int, hi as int),
{
    hi - lo == 3 && ci(t.get_char(lo), 'i') && ci(t.get_char(lo + 1), 'n') && ci(
        t.get_char(lo + 2),
        'f',
    )
}

fn word_infinity(t: &str, lo: usize, hi: usize) -> (r: bool)
    requires
        lo <= hi <= t@.len(),
    ensures
        r == infinity_between(t@, lo as int, hi as int),
{
    hi - lo == 8 && ci(t.get_char(lo), 'i') && ci(t.get_char(lo + 1), 'n') && ci(
        t.get_char(lo + 2),
        'f',
    ) && ci(t.get_char(lo + 3), 'i') && ci(t.get_char(lo + 4), 'n') && ci(t.get_char(lo + 5), 'i')
        && ci(t.get_char(lo + 6), 't') && ci(t.get_char(lo + 7), 'y')
}

fn word_nan(t: &str, lo: usize, hi: usize) -> (r: bool)
    requires
        lo <= hi <= t@.len(),
    ensures
        r == nan_between(t@, lo as int, hi as int),
{
    hi - lo == 3 && ci(t.get_char(lo), 'n') && ci(t.get_char(lo + 1), 'a') && ci(
        t.get_char(lo + 2),
        'n',
    )
}

/// Decides whether a token is a numeric literal.
pub fn is_numeric_token(t: &str) -> (r: bool)
    ensures
        r == spec_is_numeric(t@),
{
    let n = t.unicode_len();
    let mut st: usize = 0;
    if n > 0 {
        let c = t.get_char(0);
        if c == '+' || c == '-' {
            st = 1;
        }
    }
    word_inf(t, st, n) || word_infinity(t, st, n) || word_nan(t, st, n) || number_span(t, st, n)
}

// ---------------------------------------------------------------------------
// Operator and parenthesis tokens
// ---------------------------------------------------------------------------

pub open spec fn spec_is_lparen(t: Seq<char>) -> bool {
    t.len() == 1 && t[0] == '('
}

pub open spec fn spec_is_rparen(t: Seq<char>) -> bool {
    t.len() == 1 && t[0] == ')'
}

pub open spec fn spec_is_op_char(c: char) -> bool {
    c == '+' || c == '-' || c == '*' || c == '/' || c == '^'
}

/// The token is one of the five binary operators.
pub open spec fn spec_is_op(t: Seq<char>) -> bool {
    t.len() == 1 && spec_is_op_char(t[0])
}

pub open spec fn spec_is_div(t: Seq<char>) -> bool {
    t.len() == 1 && t[0] == '/'
}

/// The token is meaningful to the converter: a numeric literal, an
/// operator, or a parenthesis.
pub open spec fn spec_is_recognized(t: Seq<char>) -> bool {
    spec_is_numeric(t) || spec_is_lparen(t) || spec_is_rparen(t) || spec_is_op(t)
}

/// The single character of a one-character token.
pub fn single_char(t: &str) -> (r: Option<char>)
    ensures
        match r {
            Some(c) => t@.len() == 1 && t@[0] == c,
            None => t@.len() != 1,
        },
{
    if t.unicode_len() == 1 {
        Some(t.get_char(0))
    } else {
        None
    }
}

// ---------------------------------------------------------------------------
// Facts about numeric tokens
// ---------------------------------------------------------------------------

/// A one-character token is numeric exactly when its character is a digit.
pub proof fn lemma_single_char_numeric(c: char)
    ensures
        spec_is_numeric(seq![c]) == spec_is_digit(c),
{
    let s = seq![c];
    if spec_is_digit(c) {
        assert(digit_run(s, 0, 1));
        assert(spec_is_sign(s[0]) ==> false) by {
            if spec_is_sign(s[0]) {
                assert(!spec_is_digit(s[0]));
            }
        }
        assert(spec_is_numeric(s));
    }
    if spec_is_numeric(s) && !spec_is_digit(c) {
        let st: int = if spec_is_sign(s[0]) {
            1
        } else {
            0
        };
        if mantissa_between(s, st, 1) {
            if !digit_run(s, st, 1) {
                let d = choose|d: int|
                    st <= d < 1 && #[trigger] s[d] == '.' && 1 - st >= 2 && digits_between(
                        s,
                        st,
                        d,
                    ) && digits_between(s, d + 1, 1);
                assert(false);
            }
            assert(false);
        }
        if number_between(s, st, 1) {
            let e = choose|e: int|
                st <= e < 1 && spec_is_exp_mark(#[trigger] s[e]) && mantissa_between(s, st, e)
                    && exp_between(s, e + 1, 1);
            assert(e == 0 && st == 0);
            assert(false);
        }
        assert(false);
    }
}

/// Numeric literals contain no whitespace, so a numeric token survives
/// tokenization unchanged.
pub proof fn lemma_numeric_no_space(t: Seq<char>)
    requires
        spec_is_numeric(t),
    ensures
        t.len() > 0,
        forall|k: int| 0 <= k < t.len() ==> !spec_is_space(#[trigger] t[k]),
{
    let hi = t.len() as int;
    let st: int = if 0 < hi && spec_is_sign(t[0]) {
        1
    } else {
        0
    };
    assert(t.len() > 0) by {
        if hi == 0 {
            assert(!inf_between(t, st, hi));
            if mantissa_between(t, st, hi) {
                let d = choose|d: int|
                    st <= d < hi && #[trigger] t[d] == '.' && hi - st >= 2 && digits_between(
                        t,
                        st,
                        d,
                    ) && digits_between(t, d + 1, hi);
                assert(false);
            }
            if number_between(t, st, hi) {
                let e = choose|e: int|
                    st <= e < hi && spec_is_exp_mark(#[trigger] t[e]) && mantissa_between(t, st, e)
                        && exp_between(t, e + 1, hi);
                assert(false);
            }
        }
    }
    assert forall|k: int| 0 <= k < t.len() implies !spec_is_space(#[trigger] t[k]) by {
        if k < st {
            assert(spec_is_sign(t[k]));
        } else if inf_between(t, st, hi) || infinity_between(t, st, hi) || nan_between(
            t,
            st,
            hi,
        ) {
            assert(ci_eq(t[k], 'i') || ci_eq(t[k], 'n') || ci_eq(t[k], 'f') || ci_eq(t[k], 't')
                || ci_eq(t[k], 'y') || ci_eq(t[k], 'a'));
        } else {
            assert(number_between(t, st, hi));
            if mantissa_between(t, st, hi) {
                lemma_mantissa_chars(t, st, hi, k);
            } else {
                let e = choose|e: int|
                    st <= e < hi && spec_is_exp_mark(#[trigger] t[e]) && mantissa_between(t, st, e)
                        && exp_between(t, e + 1, hi);
                if k < e {
                    lemma_mantissa_chars(t, st, e, k);
                } else if k == e {
                } else if k == e + 1 && spec_is_sign(t[k]) {
                } else {
                    assert(spec_is_digit(t[k]));
                }
            }
        }
    }
}

} // verus!

