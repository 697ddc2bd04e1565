//! The grammar, as spec functions on the input's characters.
//!
//! ```text
//! expression := term (("+" | "-") term)*
//! term       := factor (("*" | "/") factor)*
//! factor     := "(" expression ")" | number
//! number     := "-"? digit+ ("." digit+)?
//! ```
//!
//! Blanks (space, tab, carriage return, line feed) are skipped before each
//! factor and before each operator. A number has no blank between its sign
//! and its digits, no exponent and no leading `+`. Operators fold to the
//! left. Each parse function takes a start position and gives the tree with
//! the position just past it, or the position of the factor that could not
//! be read.
use vstd::prelude::*;
use crate::expr::Tree;

verus! {

/// Whether `c` is one of the blank characters skipped between tokens.
pub open spec fn is_blank(c: char) -> bool {
    c == ' ' || c == '\t' || c == '\r' || c == '\n'
}

/// Whether `c` is a decimal digit.
pub open spec fn is_digit(c: char) -> bool {
    '0' <= c && c <= '9'
}

/// How many blanks stand in `s` from position `i` on.
pub open spec fn blank_run(s: Seq<char>, i: int) -> nat
    decreases s.len() - i,
{
    if 0 <= i < s.len() && is_blank(s[i]) {
        1 + blank_run(s, i + 1)
    } else {
        0
    }
}

/// How many digits stand in `s` from position `i` on.
pub open spec fn digit_run(s: Seq<char>, i: int) -> nat
    decreases s.len() - i,
{
    if 0 <= i < s.len() && is_digit(s[i]) {
        1 + digit_run(s, i + 1)
    } else {
        0
    }
}

/// The position just past the numeric literal that starts at `i`, if one does.
pub open spec fn number_end(s: Seq<char>, i: int) -> Option<int> {
    let d = if 0 <= i < s.len() && s[i] == '-' { i + 1 } else { i };
    let e = d + digit_run(s, d);
    if e == d {
        None
    } else if 0 <= e && e + 1 < s.len() && s[e] == '.' && is_digit(s[e + 1]) {
        Some(e + 1 + digit_run(s, e + 1))
    } else {
        Some(e)
    }
}

/// A numeric literal at `i`, with no blanks skipped.
pub open spec fn number(s: Seq<char>, i: int) -> Result<(Tree, int), int> {
    match number_end(s, i) {
        Some(e) => Ok((Tree::Num(s.subrange(i, e)), e)),
        None => Err(i),
    }
}

/// A factor after the blanks at `i`: a parenthesised expression, or else a
/// numeric literal at the same position.
pub open spec fn factor(s: Seq<char>, i: int) -> Result<(Tree, int), int>
    decreases s.len() - i, 0int,
{
    let j = i + blank_run(s, i);
    if 0 <= j < s.len() && s[j] == '(' {
        match expression(s, j + 1) {
            Ok((t, k)) => if 0 <= k < s.len() && s[k] == ')' {
                Ok((t, k + 1))
            } else {
                number(s, j)
            },
            Err(_) => number(s, j),
        }
    } else {
        number(s, j)
    }
}

/// The operator node that `op` builds from its two operands.
pub open spec fn node(op: char, l: Tree, r: Tree) -> Tree {
    if op == '+' {
        Tree::Add(Box::new(l), Box::new(r))
    } else if op == '-' {
        Tree::Sub(Box::new(l), Box::new(r))
    } else if op == '*' {
        Tree::Mul(Box::new(l), Box::new(r))
    } else {
        Tree::Div(Box::new(l), Box::new(r))
    }
}

/// A term at `i`: a factor followed by any number of `* factor` and
/// `/ factor`.
pub open spec fn term(s: Seq<char>, i: int) -> Result<(Tree, int), int>
    decreases s.len() - i, 1int,
{
    match factor(s, i) {
        Ok((t, k)) => if i < k <= s.len() {
            term_rest(s, k, t)
        } else {
            Ok((t, k))
        },
        Err(e) => Err(e),
    }
}

/// The rest of a term whose operands so far fold to `left`, from `k` on.
pub open spec fn term_rest(s: Seq<char>, k: int, left: Tree) -> Result<(Tree, int), int>
    decreases s.len() - k, 1int,
{
    let j = k + blank_run(s, k);
    if 0 <= j < s.len() && (s[j] == '*' || s[j] == '/') {
        match factor(s, j + 1) {
            Ok((r, m)) => if k < m <= s.len() {
                term_rest(s, m, node(s[j], left, r))
            } else {
                Ok((node(s[j], left, r), m))
            },
            Err(e) => Err(e),
        }
    } else {
        Ok((left, k))
    }
}

/// An expression at `i`: a term followed by any number of `+ term` and
/// `- term`.
pub open spec fn expression(s: Seq<char>, i: int) -> Result<(Tree, int), int>
    decreases s.len() - i, 3int,
{
    match term(s, i) {
        Ok((t, k)) => if i < k <= s.len() {
            expression_rest(s, k, t)
        } else {
            Ok((t, k))
        },
        Err(e) => Err(e),
    }
}

/// The rest of an expression whose terms so far fold to `left`, from `k` on.
pub open spec fn expression_rest(s: Seq<char>, k: int, left: Tree) -> Result<(Tree, int), int>
    decreases s.len() - k, 3int,
{
    let j = k + blank_run(s, k);
    if 0 <= j < s.len() && (s[j] == '+' || s[j] == '-') {
        match term(s, j + 1) {
            Ok((r, m)) => if k < m <= s.len() {
                expression_rest(s, m, node(s[j], left, r))
            } else {
                Ok((node(s[j], left, r), m))
            },
            Err(e) => Err(e),
        }
    } else {
        Ok((left, k))
    }
}

} // verus!
