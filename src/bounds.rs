//! Where each grammar function may stop: every successful parse from `i`
//! ends after `i` and within the input, and trailing blanks added to an
//! input change no successful parse inside it.
use vstd::prelude::*;
use crate::expr::Tree;
use crate::grammar::{
    blank_run, digit_run, expression, expression_rest, factor, is_blank, is_digit, node, number,
    term, term_rest,
};

verus! {

/// Whether every character of `w` is a blank.
pub open spec fn all_blank(w: Seq<char>) -> bool {
    forall|x: int| 0 <= x < w.len() ==> is_blank(#[trigger] w[x])
}

/// Whether two outcomes are both the same success, or both failures.
pub open spec fn same_outcome(a: Result<(Tree, int), int>, b: Result<(Tree, int), int>) -> bool {
    match (a, b) {
        (Ok(x), Ok(y)) => x == y,
        (Err(_), Err(_)) => true,
        _ => false,
    }
}

proof fn lemma_blank_run_bound(s: Seq<char>, i: int)
    requires
        0 <= i <= s.len(),
    ensures
        i + blank_run(s, i) <= s.len(),
    decreases s.len() - i,
{
    if i < s.len() && is_blank(s[i]) {
        lemma_blank_run_bound(s, i + 1);
    }
}

proof fn lemma_digit_run_bound(s: Seq<char>, i: int)
    requires
        0 <= i <= s.len(),
    ensures
        i + digit_run(s, i) <= s.len(),
    decreases s.len() - i,
{
    if i < s.len() && is_digit(s[i]) {
        lemma_digit_run_bound(s, i + 1);
    }
}

proof fn lemma_number_bound(s: Seq<char>, i: int)
    requires
        0 <= i <= s.len(),
    ensures
        number(s, i) matches Ok((_, k)) ==> i < k <= s.len(),
        number(s, i) matches Err(p) ==> p == i,
{
    let d = if i < s.len() && s[i] == '-' { i + 1 } else { i };
    lemma_digit_run_bound(s, d);
    let e = d + digit_run(s, d);
    if e + 1 < s.len() {
        lemma_digit_run_bound(s, e + 1);
    }
}

pub proof fn lemma_factor_bound(s: Seq<char>, i: int)
    requires
        0 <= i <= s.len(),
    ensures
        factor(s, i) matches Ok((_, k)) ==> i < k <= s.len(),
    decreases s.len() - i, 0int,
{
    lemma_blank_run_bound(s, i);
    let j = i + blank_run(s, i);
    if 0 <= j < s.len() && s[j] == '(' {
        lemma_expression_bound(s, j + 1);
    }
    lemma_number_bound(s, j);
}

pub proof fn lemma_term_bound(s: Seq<char>, i: int)
    requires
        0 <= i <= s.len(),
    ensures
        term(s, i) matches Ok((_, k)) ==> i < k <= s.len(),
    decreases s.len() - i, 1int,
{
    lemma_factor_bound(s, i);
    if let Ok((t, k)) = factor(s, i) {
        lemma_term_rest_bound(s, k, t);
    }
}

pub proof fn lemma_term_rest_bound(s: Seq<char>, k: int, left: Tree)
    requires
        0 <= k <= s.len(),
    ensures
        term_rest(s, k, left) matches Ok((_, m)) ==> k <= m <= s.len(),
    decreases s.len() - k, 1int,
{
    lemma_blank_run_bound(s, k);
    let j = k + blank_run(s, k);
    if 0 <= j < s.len() && (s[j] == '*' || s[j] == '/') {
        lemma_factor_bound(s, j + 1);
        if let Ok((r, m)) = factor(s, j + 1) {
            lemma_term_rest_bound(s, m, node(s[j], left, r));
        }
    }
}

pub proof fn lemma_expression_bound(s: Seq<char>, i: int)
    requires
        0 <= i <= s.len(),
    ensures
        expression(s, i) matches Ok((_, k)) ==> i < k <= s.len(),
    decreases s.len() - i, 3int,
{
    lemma_term_bound(s, i);
    if let Ok((t, k)) = term(s, i) {
        lemma_expression_rest_bound(s, k, t);
    }
}

pub proof fn lemma_expression_rest_bound(s: Seq<char>, k: int, left: Tree)
    requires
        0 <= k <= s.len(),
    ensures
        expression_rest(s, k, left) matches Ok((_, m)) ==> k <= m <= s.len(),
    decreases s.len() - k, 3int,
{
    lemma_blank_run_bound(s, k);
    let j = k + blank_run(s, k);
    if 0 <= j < s.len() && (s[j] == '+' || s[j] == '-') {
        lemma_term_bound(s, j + 1);
        if let Ok((r, m)) = term(s, j + 1) {
            lemma_expression_rest_bound(s, m, node(s[j], left, r));
        }
    }
}

proof fn lemma_blank_tail(s: Seq<char>, n: int, x: int)
    requires
        0 <= n <= x <= s.len(),
        all_blank(s.subrange(n, s.len() as int)),
    ensures
        x + blank_run(s, x) == s.len(),
    decreases s.len() - x,
{
    if x < s.len() {
        assert(s[x] == s.subrange(n, s.len() as int)[x - n]);
        lemma_blank_tail(s, n, x + 1);
    }
}

proof fn lemma_blank_run_ext(s: Seq<char>, w: Seq<char>, i: int)
    requires
        0 <= i <= s.len(),
        all_blank(w),
    ensures
        i + blank_run(s, i) < s.len() ==> blank_run(s + w, i) == blank_run(s, i),
        i + blank_run(s, i) == s.len() ==> i + blank_run(s + w, i) == s.len() + w.len(),
    decreases s.len() - i,
{
    let s2 = s + w;
    lemma_blank_run_bound(s, i);
    if i < s.len() {
        assert(s2[i] == s[i]);
        if is_blank(s[i]) {
            lemma_blank_run_ext(s, w, i + 1);
        }
    } else {
        assert(s2.subrange(s.len() as int, s2.len() as int) =~= w);
        lemma_blank_tail(s2, s.len() as int, i);
    }
}

proof fn lemma_digit_run_ext(s: Seq<char>, w: Seq<char>, i: int)
    requires
        0 <= i <= s.len(),
        all_blank(w),
    ensures
        digit_run(s + w, i) == digit_run(s, i),
    decreases s.len() - i,
{
    let s2 = s + w;
    if i < s.len() {
        assert(s2[i] == s[i]);
        if is_digit(s[i]) {
            lemma_digit_run_ext(s, w, i + 1);
        }
    } else if i < s2.len() {
        assert(is_blank(w[0]));
        assert(s2[i] == w[0]);
    }
}

proof fn lemma_number_ext(s: Seq<char>, w: Seq<char>, i: int)
    requires
        0 <= i <= s.len(),
        all_blank(w),
    ensures
        number(s + w, i) == number(s, i),
{
    let s2 = s + w;
    if w.len() > 0 {
        assert(is_blank(w[0]));
        assert(s2[s.len() as int] == w[0]);
    }
    if i < s.len() {
        assert(s2[i] == s[i]);
    }
    let d = if i < s.len() && s[i] == '-' { i + 1 } else { i };
    lemma_digit_run_ext(s, w, d);
    lemma_digit_run_bound(s, d);
    let e = d + digit_run(s, d);
    if e < s.len() {
        assert(s2[e] == s[e]);
    }
    if e + 1 < s.len() {
        assert(s2[e + 1] == s[e + 1]);
        lemma_digit_run_ext(s, w, e + 1);
        lemma_digit_run_bound(s, e + 1);
        let f = e + 1 + digit_run(s, e + 1);
        assert(s2.subrange(i, f) =~= s.subrange(i, f));
    }
    if e + 1 == s.len() && w.len() > 0 {
        assert(s2[e + 1] == w[0]);
    }
    assert(s2.subrange(i, e) =~= s.subrange(i, e));
}

proof fn lemma_factor_ext(s: Seq<char>, w: Seq<char>, i: int)
    requires
        0 <= i <= s.len(),
        all_blank(w),
    ensures
        same_outcome(factor(s + w, i), factor(s, i)),
    decreases s.len() - i, 0int,
{
    let s2 = s + w;
    lemma_blank_run_ext(s, w, i);
    lemma_blank_run_bound(s, i);
    let j = i + blank_run(s, i);
    if j < s.len() {
        assert(s2[j] == s[j]);
        lemma_number_ext(s, w, j);
        if s[j] == '(' {
            lemma_expression_ext(s, w, j + 1);
            lemma_expression_bound(s, j + 1);
            if let Ok((t, k)) = expression(s, j + 1) {
                if k < s.len() {
                    assert(s2[k] == s[k]);
                } else if w.len() > 0 {
                    assert(is_blank(w[0]));
                    assert(s2[k] == w[0]);
                }
            }
        }
    } else {
        lemma_number_bound(s, j);
        assert(i + blank_run(s2, i) == s2.len());
        assert(digit_run(s2, s2.len() as int) == 0);
    }
}

proof fn lemma_term_ext(s: Seq<char>, w: Seq<char>, i: int)
    requires
        0 <= i <= s.len(),
        all_blank(w),
    ensures
        same_outcome(term(s + w, i), term(s, i)),
    decreases s.len() - i, 1int,
{
    lemma_factor_ext(s, w, i);
    lemma_factor_bound(s, i);
    if let Ok((t, k)) = factor(s, i) {
        lemma_term_rest_ext(s, w, k, t);
    }
}

proof fn lemma_term_rest_ext(s: Seq<char>, w: Seq<char>, k: int, left: Tree)
    requires
        0 <= k <= s.len(),
        all_blank(w),
    ensures
        same_outcome(term_rest(s + w, k, left), term_rest(s, k, left)),
    decreases s.len() - k, 1int,
{
    let s2 = s + w;
    lemma_blank_run_ext(s, w, k);
    lemma_blank_run_bound(s, k);
    let j = k + blank_run(s, k);
    if j < s.len() {
        assert(s2[j] == s[j]);
        if s[j] == '*' || s[j] == '/' {
            lemma_factor_ext(s, w, j + 1);
            lemma_factor_bound(s, j + 1);
            if let Ok((r, m)) = factor(s, j + 1) {
                lemma_term_rest_ext(s, w, m, node(s[j], left, r));
            }
        }
    }
}

proof fn lemma_expression_ext(s: Seq<char>, w: Seq<char>, i: int)
    requires
        0 <= i <= s.len(),
        all_blank(w),
    ensures
        same_outcome(expression(s + w, i), expression(s, i)),
    decreases s.len() - i, 3int,
{
    lemma_term_ext(s, w, i);
    lemma_term_bound(s, i);
    if let Ok((t, k)) = term(s, i) {
        lemma_expression_rest_ext(s, w, k, t);
    }
}

proof fn lemma_expression_rest_ext(s: Seq<char>, w: Seq<char>, k: int, left: Tree)
    requires
        0 <= k <= s.len(),
        all_blank(w),
    ensures
        same_outcome(expression_rest(s + w, k, left), expression_rest(s, k, left)),
    decreases s.len() - k, 3int,
{
    let s2 = s + w;
    lemma_blank_run_ext(s, w, k);
    lemma_blank_run_bound(s, k);
    let j = k + blank_run(s, k);
    if j < s.len() {
        assert(s2[j] == s[j]);
        if s[j] == '+' || s[j] == '-' {
            lemma_term_ext(s, w, j + 1);
            lemma_term_bound(s, j + 1);
            if let Ok((r, m)) = term(s, j + 1) {
                lemma_expression_rest_ext(s, w, m, node(s[j], left, r));
            }
        }
    }
}

/// Blanks after an input are left unread: for every input `s` whose whole
/// text is one expression, and every run of blanks `w`, the input `s + w`
/// parses to the same tree and stops at the end of `s`, so what is left
/// unread is exactly `w`.
pub proof fn trailing_blanks_unread(s: Seq<char>, w: Seq<char>)
    requires
        expression(s, 0) matches Ok((_, k)) && k == s.len(),
        all_blank(w),
    ensures
        expression(s + w, 0) == expression(s, 0),
{
    lemma_expression_ext(s, w, 0);
}

} // verus!
