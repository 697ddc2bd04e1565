//! Laws of the grammar, proved for every choice of numeric literals.
use vstd::prelude::*;
use crate::expr::Tree;
use crate::grammar::{
    blank_run, digit_run, expression, expression_rest, factor, is_digit, node, number,
    number_end, term, term_rest,
};

verus! {

/// Whether `a` is, as a whole, one numeric literal.
pub open spec fn is_literal(a: Seq<char>) -> bool {
    number_end(a, 0) == Some(a.len() as int)
}

/// `l op r`, with one space on each side of the operator.
pub open spec fn spaced(l: Seq<char>, op: char, r: Seq<char>) -> Seq<char> {
    l + seq![' ', op, ' '] + r
}

/// `(x)`.
pub open spec fn parens(x: Seq<char>) -> Seq<char> {
    seq!['('] + x + seq![')']
}

/// The leaf that a literal's text parses to.
pub open spec fn leaf(a: Seq<char>) -> Tree {
    Tree::Num(a)
}

proof fn lemma_literal_start(a: Seq<char>)
    requires
        is_literal(a),
    ensures
        a.len() > 0,
        a[0] == '-' || is_digit(a[0]),
{
    if a.len() == 0 {
        assert(digit_run(a, 0) == 0);
    } else if a[0] != '-' {
        assert(digit_run(a, 0) > 0);
    }
}

proof fn lemma_digit_run_embed(s: Seq<char>, i: int, a: Seq<char>, x: int)
    requires
        0 <= i,
        i + a.len() <= s.len(),
        s.subrange(i, i + a.len()) == a,
        0 <= x <= a.len(),
        i + a.len() == s.len() || !is_digit(s[i + a.len()]),
    ensures
        digit_run(s, i + x) == digit_run(a, x),
    decreases a.len() - x,
{
    if x < a.len() {
        assert(s[i + x] == s.subrange(i, i + a.len())[x]);
        if is_digit(a[x]) {
            lemma_digit_run_embed(s, i, a, x + 1);
        }
    }
}

proof fn lemma_number_embed(s: Seq<char>, i: int, a: Seq<char>)
    requires
        is_literal(a),
        0 <= i,
        i + a.len() <= s.len(),
        s.subrange(i, i + a.len()) == a,
        i + a.len() == s.len() || (!is_digit(s[i + a.len()]) && s[i + a.len()] != '.'),
    ensures
        number(s, i) == Ok::<(Tree, int), int>((leaf(a), i + a.len())),
{
    lemma_literal_start(a);
    assert(s[i] == s.subrange(i, i + a.len())[0]);
    let d: int = if a[0] == '-' { 1 } else { 0 };
    lemma_digit_run_embed(s, i, a, d);
    let e = d + digit_run(a, d);
    if e + 1 < a.len() {
        lemma_digit_run_embed(s, i, a, e + 1);
        assert(s[i + e] == s.subrange(i, i + a.len())[e]);
        assert(s[i + e + 1] == s.subrange(i, i + a.len())[e + 1]);
    } else if e < a.len() {
        assert(s[i + e] == s.subrange(i, i + a.len())[e]);
    }
}

proof fn lemma_factor_literal(s: Seq<char>, i: int, w: int, a: Seq<char>)
    requires
        is_literal(a),
        0 <= i,
        w == 0 || (w == 1 && i < s.len() && s[i] == ' '),
        i + w + a.len() <= s.len(),
        s.subrange(i + w, i + w + a.len()) == a,
        i + w + a.len() == s.len() || (!is_digit(s[i + w + a.len()]) && s[i + w + a.len()] != '.'),
    ensures
        factor(s, i) == Ok::<(Tree, int), int>((leaf(a), i + w + a.len())),
{
    lemma_literal_start(a);
    assert(s[i + w] == s.subrange(i + w, i + w + a.len())[0]);
    assert(blank_run(s, i + w) == 0);
    assert(blank_run(s, i) == w);
    lemma_number_embed(s, i + w, a);
}

/// Multiplication binds tighter than addition: for all numeric literals
/// `a`, `b`, `c`, the whole of `a + b * c` parses to
/// `Add(a, Mul(b, c))`.
#[verifier::rlimit(40)]
pub proof fn precedence(a: Seq<char>, b: Seq<char>, c: Seq<char>)
    requires
        is_literal(a),
        is_literal(b),
        is_literal(c),
    ensures
        expression(spaced(a, '+', spaced(b, '*', c)), 0) == Ok::<(Tree, int), int>(
            (
                node('+', leaf(a), node('*', leaf(b), leaf(c))),
                spaced(a, '+', spaced(b, '*', c)).len() as int,
            ),
        ),
{
    let s = spaced(a, '+', spaced(b, '*', c));
    let la = a.len() as int;
    let p = la + 3 + b.len();
    let n = s.len() as int;
    lemma_literal_start(b);
    lemma_literal_start(c);
    assert(s.subrange(0, la) =~= a);
    assert(s.subrange(la + 3, p) =~= b);
    assert(s.subrange(p + 3, n) =~= c);
    lemma_factor_literal(s, 0, 0, a);
    assert(s[la + 1] == '+');
    assert(blank_run(s, la + 1) == 0);
    assert(blank_run(s, la) == 1);
    assert(term_rest(s, la, leaf(a)) == Ok::<(Tree, int), int>((leaf(a), la)));
    assert(term(s, 0) == Ok::<(Tree, int), int>((leaf(a), la)));
    lemma_factor_literal(s, la + 2, 1, b);
    assert(s[p + 1] == '*');
    assert(blank_run(s, p + 1) == 0);
    assert(blank_run(s, p) == 1);
    lemma_factor_literal(s, p + 2, 1, c);
    let bc = node('*', leaf(b), leaf(c));
    assert(term_rest(s, n, bc) == Ok::<(Tree, int), int>((bc, n)));
    assert(term_rest(s, p, leaf(b)) == Ok::<(Tree, int), int>((bc, n)));
    assert(term(s, la + 2) == Ok::<(Tree, int), int>((bc, n)));
    let abc = node('+', leaf(a), bc);
    assert(expression_rest(s, n, abc) == Ok::<(Tree, int), int>((abc, n)));
    assert(expression_rest(s, la, leaf(a)) == Ok::<(Tree, int), int>((abc, n)));
}

/// Whether `op` is one of the four operators.
pub open spec fn is_operator(op: char) -> bool {
    op == '+' || op == '-' || op == '*' || op == '/'
}

proof fn lemma_pair_in_parens(s: Seq<char>, i: int, a: Seq<char>, op: char, b: Seq<char>)
    requires
        is_literal(a),
        is_literal(b),
        is_operator(op),
        0 <= i,
        i + a.len() + b.len() + 5 <= s.len(),
        s.subrange(i, i + a.len() + b.len() + 5) == parens(spaced(a, op, b)),
    ensures
        factor(s, i) == Ok::<(Tree, int), int>(
            (node(op, leaf(a), leaf(b)), i + a.len() + b.len() + 5),
        ),
{
    let la = a.len() as int;
    let q = i + la + b.len() + 4;
    let inner = parens(spaced(a, op, b));
    assert(s.subrange(i + 1, i + 1 + la) =~= a) by {
        assert forall|x: int| 0 <= x < la implies s[i + 1 + x] == a[x] by {
            assert(s[i + 1 + x] == s.subrange(i, q + 1)[1 + x]);
        }
    }
    assert(s.subrange(i + la + 4, q) =~= b) by {
        assert forall|x: int| 0 <= x < b.len() implies s[i + la + 4 + x] == b[x] by {
            assert(s[i + la + 4 + x] == s.subrange(i, q + 1)[la + 4 + x]);
        }
    }
    assert(s[i] == s.subrange(i, q + 1)[0]);
    assert(s[i + 1 + la] == s.subrange(i, q + 1)[1 + la]);
    assert(s[i + 2 + la] == s.subrange(i, q + 1)[2 + la]);
    assert(s[i + 3 + la] == s.subrange(i, q + 1)[3 + la]);
    assert(s[q] == s.subrange(i, q + 1)[q - i]);
    lemma_literal_start(a);
    lemma_literal_start(b);
    assert(blank_run(s, i) == 0);
    assert(blank_run(s, q) == 0);
    assert(blank_run(s, i + 2 + la) == 0);
    assert(blank_run(s, i + 1 + la) == 1);
    lemma_factor_literal(s, i + 1, 0, a);
    lemma_factor_literal(s, i + 3 + la, 1, b);
    let t = node(op, leaf(a), leaf(b));
    if op == '+' || op == '-' {
        assert(term_rest(s, i + 1 + la, leaf(a)) == Ok::<(Tree, int), int>((leaf(a), i + 1 + la)));
        assert(term(s, i + 1) == Ok::<(Tree, int), int>((leaf(a), i + 1 + la)));
        assert(term_rest(s, q, leaf(b)) == Ok::<(Tree, int), int>((leaf(b), q)));
        assert(term(s, i + 3 + la) == Ok::<(Tree, int), int>((leaf(b), q)));
        assert(expression_rest(s, q, t) == Ok::<(Tree, int), int>((t, q)));
        assert(expression_rest(s, i + 1 + la, leaf(a)) == Ok::<(Tree, int), int>((t, q)));
    } else {
        assert(term_rest(s, q, t) == Ok::<(Tree, int), int>((t, q)));
        assert(term_rest(s, i + 1 + la, leaf(a)) == Ok::<(Tree, int), int>((t, q)));
        assert(term(s, i + 1) == Ok::<(Tree, int), int>((t, q)));
        assert(expression_rest(s, q, t) == Ok::<(Tree, int), int>((t, q)));
    }
    assert(expression(s, i + 1) == Ok::<(Tree, int), int>((t, q)));
}

/// Parentheses override precedence: for all numeric literals `a`, `b`,
/// `c`, the whole of `(a + b) * c` parses to `Mul(Add(a, b), c)`.
pub proof fn parenthesised_sum_times(a: Seq<char>, b: Seq<char>, c: Seq<char>)
    requires
        is_literal(a),
        is_literal(b),
        is_literal(c),
    ensures
        expression(spaced(parens(spaced(a, '+', b)), '*', c), 0) == Ok::<(Tree, int), int>(
            (
                node('*', node('+', leaf(a), leaf(b)), leaf(c)),
                spaced(parens(spaced(a, '+', b)), '*', c).len() as int,
            ),
        ),
{
    let s = spaced(parens(spaced(a, '+', b)), '*', c);
    let f = (a.len() + b.len() + 5) as int;
    let n = s.len() as int;
    lemma_literal_start(c);
    assert(s.subrange(0, f) =~= parens(spaced(a, '+', b)));
    assert(s.subrange(f + 3, n) =~= c);
    lemma_pair_in_parens(s, 0, a, '+', b);
    assert(s[f + 1] == '*');
    assert(blank_run(s, f + 1) == 0);
    assert(blank_run(s, f) == 1);
    lemma_factor_literal(s, f + 2, 1, c);
    let ab = node('+', leaf(a), leaf(b));
    let t = node('*', ab, leaf(c));
    assert(term_rest(s, n, t) == Ok::<(Tree, int), int>((t, n)));
    assert(term_rest(s, f, ab) == Ok::<(Tree, int), int>((t, n)));
    assert(term(s, 0) == Ok::<(Tree, int), int>((t, n)));
    assert(expression_rest(s, n, t) == Ok::<(Tree, int), int>((t, n)));
}

/// Operators of one level fold to the left: for every operator `op` and all
/// numeric literals `a`, `b`, `c`, the whole of `a op b op c` and the whole
/// of `(a op b) op c` parse to the same tree, `op(op(a, b), c)`; so
/// `a - b - c` evaluates as `(a - b) - c`, and `a / b / c` as `(a / b) / c`.
pub proof fn left_associative(a: Seq<char>, op: char, b: Seq<char>, c: Seq<char>)
    requires
        is_literal(a),
        is_literal(b),
        is_literal(c),
        is_operator(op),
    ensures
        expression(spaced(spaced(a, op, b), op, c), 0) == Ok::<(Tree, int), int>(
            (
                node(op, node(op, leaf(a), leaf(b)), leaf(c)),
                spaced(spaced(a, op, b), op, c).len() as int,
            ),
        ),
        expression(spaced(parens(spaced(a, op, b)), op, c), 0) == Ok::<(Tree, int), int>(
            (
                node(op, node(op, leaf(a), leaf(b)), leaf(c)),
                spaced(parens(spaced(a, op, b)), op, c).len() as int,
            ),
        ),
{
    chain_left(a, op, b, c);
    parenthesised_left(a, op, b, c);
}

#[verifier::rlimit(40)]
proof fn chain_left(a: Seq<char>, op: char, b: Seq<char>, c: Seq<char>)
    requires
        is_literal(a),
        is_literal(b),
        is_literal(c),
        is_operator(op),
    ensures
        expression(spaced(spaced(a, op, b), op, c), 0) == Ok::<(Tree, int), int>(
            (
                node(op, node(op, leaf(a), leaf(b)), leaf(c)),
                spaced(spaced(a, op, b), op, c).len() as int,
            ),
        ),
{
    let s = spaced(spaced(a, op, b), op, c);
    let la = a.len() as int;
    let p = la + 3 + b.len();
    let n = s.len() as int;
    lemma_literal_start(b);
    lemma_literal_start(c);
    assert(s.subrange(0, la) =~= a);
    assert(s.subrange(la + 3, p) =~= b);
    assert(s.subrange(p + 3, n) =~= c);
    assert(s[la + 1] == op);
    assert(s[p + 1] == op);
    assert(blank_run(s, la + 1) == 0);
    assert(blank_run(s, la) == 1);
    assert(blank_run(s, p + 1) == 0);
    assert(blank_run(s, p) == 1);
    lemma_factor_literal(s, 0, 0, a);
    lemma_factor_literal(s, la + 2, 1, b);
    lemma_factor_literal(s, p + 2, 1, c);
    let ab = node(op, leaf(a), leaf(b));
    let t = node(op, ab, leaf(c));
    if op == '+' || op == '-' {
        assert(term_rest(s, la, leaf(a)) == Ok::<(Tree, int), int>((leaf(a), la)));
        assert(term(s, 0) == Ok::<(Tree, int), int>((leaf(a), la)));
        assert(term_rest(s, p, leaf(b)) == Ok::<(Tree, int), int>((leaf(b), p)));
        assert(term(s, la + 2) == Ok::<(Tree, int), int>((leaf(b), p)));
        assert(term_rest(s, n, leaf(c)) == Ok::<(Tree, int), int>((leaf(c), n)));
        assert(term(s, p + 2) == Ok::<(Tree, int), int>((leaf(c), n)));
        assert(expression_rest(s, n, t) == Ok::<(Tree, int), int>((t, n)));
        assert(expression_rest(s, p, ab) == Ok::<(Tree, int), int>((t, n)));
        assert(expression_rest(s, la, leaf(a)) == Ok::<(Tree, int), int>((t, n)));
    } else {
        assert(term_rest(s, n, t) == Ok::<(Tree, int), int>((t, n)));
        assert(term_rest(s, p, ab) == Ok::<(Tree, int), int>((t, n)));
        assert(term_rest(s, la, leaf(a)) == Ok::<(Tree, int), int>((t, n)));
        assert(term(s, 0) == Ok::<(Tree, int), int>((t, n)));
        assert(expression_rest(s, n, t) == Ok::<(Tree, int), int>((t, n)));
    }
}

#[verifier::rlimit(40)]
proof fn parenthesised_left(a: Seq<char>, op: char, b: Seq<char>, c: Seq<char>)
    requires
        is_literal(a),
        is_literal(b),
        is_literal(c),
        is_operator(op),
    ensures
        expression(spaced(parens(spaced(a, op, b)), op, c), 0) == Ok::<(Tree, int), int>(
            (
                node(op, node(op, leaf(a), leaf(b)), leaf(c)),
                spaced(parens(spaced(a, op, b)), op, c).len() as int,
            ),
        ),
{
    let s = spaced(parens(spaced(a, op, b)), op, c);
    let f = (a.len() + b.len() + 5) as int;
    let n = s.len() as int;
    lemma_literal_start(c);
    assert(s.subrange(0, f) =~= parens(spaced(a, op, b)));
    assert(s.subrange(f + 3, n) =~= c);
    lemma_pair_in_parens(s, 0, a, op, b);
    assert(s[f + 1] == op);
    assert(blank_run(s, f + 1) == 0);
    assert(blank_run(s, f) == 1);
    lemma_factor_literal(s, f + 2, 1, c);
    let ab = node(op, leaf(a), leaf(b));
    let t = node(op, ab, leaf(c));
    if op == '+' || op == '-' {
        assert(term_rest(s, f, ab) == Ok::<(Tree, int), int>((ab, f)));
        assert(term(s, 0) == Ok::<(Tree, int), int>((ab, f)));
        assert(term_rest(s, n, leaf(c)) == Ok::<(Tree, int), int>((leaf(c), n)));
        assert(term(s, f + 2) == Ok::<(Tree, int), int>((leaf(c), n)));
        assert(expression_rest(s, n, t) == Ok::<(Tree, int), int>((t, n)));
        assert(expression_rest(s, f, ab) == Ok::<(Tree, int), int>((t, n)));
    } else {
        assert(term_rest(s, n, t) == Ok::<(Tree, int), int>((t, n)));
        assert(term_rest(s, f, ab) == Ok::<(Tree, int), int>((t, n)));
        assert(term(s, 0) == Ok::<(Tree, int), int>((t, n)));
        assert(expression_rest(s, n, t) == Ok::<(Tree, int), int>((t, n)));
    }
}

} // verus!
