//! The recursive-descent parser. Each function reads from a position of the
//! input's characters and is proved to agree with the grammar function of
//! the same level.
use vstd::prelude::*;
use vstd::string::*;
use crate::expr::{Expr, ParseError, Tree};
use crate::grammar::{
    blank_run, digit_run, expression, factor, is_blank, is_digit, node, number, term, term_rest,
    expression_rest,
};

verus! {

/// Whether an executable parse outcome is the one the grammar gives.
pub open spec fn agrees(r: Result<(Expr, usize), usize>, g: Result<(Tree, int), int>) -> bool {
    match (r, g) {
        (Ok((e, k)), Ok((t, m))) => e@ == t && k as int == m,
        (Err(p), Err(q)) => p as int == q,
        _ => false,
    }
}

fn blank(c: char) -> (r: bool)
    ensures
        r == is_blank(c),
{
    c == ' ' || c == '\t' || c == '\r' || c == '\n'
}

fn digit(c: char) -> (r: bool)
    ensures
        r == is_digit(c),
{
    '0' <= c && c <= '9'
}

/// The characters of `text`, in order.
fn chars_of(text: &str) -> (v: Vec<char>)
    ensures
        v@ == text@,
{
    let n = text.unicode_len();
    let mut v: Vec<char> = Vec::new();
    let mut i: usize = 0;
    while i < n
        invariant
            n == text@.len(),
            i <= n,
            v@ == text@.subrange(0, i as int),
        decreases n - i,
    {
        v.push(text.get_char(i));
        i += 1;
    }
    v
}

/// The first position at or after `i` that holds no blank.
fn skip_blanks(s: &Vec<char>, i: usize) -> (j: usize)
    requires
        i <= s.len(),
    ensures
        j == i + blank_run(s@, i as int),
        j <= s.len(),
{
    let mut j = i;
    while j < s.len() && blank(s[j])
        invariant
            i <= j <= s.len(),
            i + blank_run(s@, i as int) == j + blank_run(s@, j as int),
        decreases s.len() - j,
    {
        j += 1;
    }
    j
}

/// The first position at or after `i` that holds no digit.
fn skip_digits(s: &Vec<char>, i: usize) -> (j: usize)
    requires
        i <= s.len(),
    ensures
        j == i + digit_run(s@, i as int),
        j <= s.len(),
{
    let mut j = i;
    while j < s.len() && digit(s[j])
        invariant
            i <= j <= s.len(),
            i + digit_run(s@, i as int) == j + digit_run(s@, j as int),
        decreases s.len() - j,
    {
        j += 1;
    }
    j
}

/// A numeric literal at `i` of `s`, the characters of `text`.
fn number_at(text: &str, s: &Vec<char>, i: usize) -> (r: Result<(Expr, usize), usize>)
    requires
        s@ == text@,
        i <= s.len(),
    ensures
        agrees(r, number(s@, i as int)),
        r matches Ok((_, k)) ==> i < k <= s.len(),
        r matches Err(p) ==> p == i,
{
    let d = if i < s.len() && s[i] == '-' { i + 1 } else { i };
    let e = skip_digits(s, d);
    if e == d {
        return Err(i);
    }
    let end = if e < s.len() && s[e] == '.' && e + 1 < s.len() && digit(s[e + 1]) {
        skip_digits(s, e + 1)
    } else {
        e
    };
    let lit = text.substring_char(i, end).to_owned();
    Ok((Expr::Float(lit), end))
}

/// A factor at `i`: blanks, then a parenthesised expression, or else a
/// numeric literal at the same position.
fn factor_at(text: &str, s: &Vec<char>, i: usize) -> (r: Result<(Expr, usize), usize>)
    requires
        s@ == text@,
        i <= s.len(),
    ensures
        agrees(r, factor(s@, i as int)),
        r matches Ok((_, k)) ==> i < k <= s.len(),
        r matches Err(p) ==> i <= p <= s.len(),
    decreases s.len() - i, 0int,
{
    let j = skip_blanks(s, i);
    if j < s.len() && s[j] == '(' {
        match expression_at(text, s, j + 1) {
            Ok((e, k)) => {
                if k < s.len() && s[k] == ')' {
                    Ok((e, k + 1))
                } else {
                    number_at(text, s, j)
                }
            },
            Err(_) => number_at(text, s, j),
        }
    } else {
        number_at(text, s, j)
    }
}

/// The node that the operator `op` builds from two operands.
fn join(op: char, l: Expr, r: Expr) -> (e: Expr)
    ensures
        e@ == node(op, l@, r@),
{
    if op == '+' {
        Expr::Add(Box::new(l), Box::new(r))
    } else if op == '-' {
        Expr::Sub(Box::new(l), Box::new(r))
    } else if op == '*' {
        Expr::Mul(Box::new(l), Box::new(r))
    } else {
        Expr::Div(Box::new(l), Box::new(r))
    }
}

/// A term at `i`: factors joined by `*` and `/`, folded to the left.
fn term_at(text: &str, s: &Vec<char>, i: usize) -> (r: Result<(Expr, usize), usize>)
    requires
        s@ == text@,
        i <= s.len(),
    ensures
        agrees(r, term(s@, i as int)),
        r matches Ok((_, k)) ==> i < k <= s.len(),
        r matches Err(p) ==> i <= p <= s.len(),
    decreases s.len() - i, 1int,
{
    let (mut left, mut k) = match factor_at(text, s, i) {
        Ok(found) => found,
        Err(p) => {
            return Err(p);
        },
    };
    loop
        invariant
            s@ == text@,
            i < k <= s.len(),
            term(s@, i as int) == term_rest(s@, k as int, left@),
        decreases s.len() - k,
    {
        let j = skip_blanks(s, k);
        if j < s.len() && (s[j] == '*' || s[j] == '/') {
            let op = s[j];
            match factor_at(text, s, j + 1) {
                Ok((right, m)) => {
                    left = join(op, left, right);
                    k = m;
                },
                Err(p) => {
                    return Err(p);
                },
            }
        } else {
            return Ok((left, k));
        }
    }
}

/// An expression at `i`: terms joined by `+` and `-`, folded to the left.
fn expression_at(text: &str, s: &Vec<char>, i: usize) -> (r: Result<(Expr, usize), usize>)
    requires
        s@ == text@,
        i <= s.len(),
    ensures
        agrees(r, expression(s@, i as int)),
        r matches Ok((_, k)) ==> i < k <= s.len(),
        r matches Err(p) ==> i <= p <= s.len(),
    decreases s.len() - i, 3int,
{
    let (mut left, mut k) = match term_at(text, s, i) {
        Ok(found) => found,
        Err(p) => {
            return Err(p);
        },
    };
    loop
        invariant
            s@ == text@,
            i < k <= s.len(),
            expression(s@, i as int) == expression_rest(s@, k as int, left@),
        decreases s.len() - k,
    {
        let j = skip_blanks(s, k);
        if j < s.len() && (s[j] == '+' || s[j] == '-') {
            let op = s[j];
            match term_at(text, s, j + 1) {
                Ok((right, m)) => {
                    left = join(op, left, right);
                    k = m;
                },
                Err(p) => {
                    return Err(p);
                },
            }
        } else {
            return Ok((left, k));
        }
    }
}

/// Parses a numeric literal at the start of `input`, with no blanks before
/// it: an optional `-`, one or more digits, and optionally a `.` followed by
/// one or more digits. Gives the rest of the input and the literal.
pub fn parse_number(input: &str) -> (r: Result<(&str, Expr), ParseError>)
    ensures
        match number(input@, 0) {
            Ok((t, k)) => r matches Ok((rest, e)) && e@ == t && rest@ == input@.subrange(
                k,
                input@.len() as int,
            ),
            Err(p) => r matches Err(err) && err.position as int == p,
        },
{
    let s = chars_of(input);
    match number_at(input, &s, 0) {
        Ok((e, k)) => Ok((input.substring_char(k, s.len()), e)),
        Err(p) => Err(ParseError { position: p }),
    }
}

/// Parses the longest prefix of `input` that forms an expression, skipping
/// blanks before each factor and operator. Gives the unread rest of the
/// input (which may begin with blanks) and the tree, or the position of the
/// factor that could not be read.
pub fn parse_expression(input: &str) -> (r: Result<(&str, Expr), ParseError>)
    ensures
        match expression(input@, 0) {
            Ok((t, k)) => r matches Ok((rest, e)) && e@ == t && rest@ == input@.subrange(
                k,
                input@.len() as int,
            ),
            Err(p) => r matches Err(err) && err.position as int == p,
        },
{
    let s = chars_of(input);
    match expression_at(input, &s, 0) {
        Ok((e, k)) => Ok((input.substring_char(k, s.len()), e)),
        Err(p) => Err(ParseError { position: p }),
    }
}

} // verus!
