//! Parser for preprocessor conditions, following C operator precedence.
//!
//! Levels 3 to 12 correspond to the C precedence levels of the binary
//! operators (multiplicative at 3, logical or at 12); level 2 is a factor.
//! Each level parses a left-associative chain of its operators.
use vstd::prelude::*;

use super::{PreprocessorBinOp, PreprocessorExpression, SpecExpr};
use crate::text::{chars_of, string_of};

verus! {

/// Whitespace as skipped between the parts of a condition.
pub open spec fn is_multispace(c: char) -> bool {
    c == ' ' || c == '\t' || c == '\r' || c == '\n'
}

pub open spec fn is_alpha(c: char) -> bool {
    ('a' <= c && c <= 'z') || ('A' <= c && c <= 'Z')
}

pub open spec fn is_digit(c: char) -> bool {
    '0' <= c && c <= '9'
}

pub open spec fn is_hex_digit(c: char) -> bool {
    is_digit(c) || ('a' <= c && c <= 'f') || ('A' <= c && c <= 'F')
}

/// Characters that may continue an identifier.
pub open spec fn is_word(c: char) -> bool {
    is_alpha(c) || is_digit(c) || c == '_'
}

/// The value of a digit character (`0`-`9`, then letters from 10 upwards).
pub open spec fn digit_value(c: char) -> int {
    if is_digit(c) {
        c as int - '0' as int
    } else if 'a' <= c && c <= 'z' {
        c as int - 'a' as int + 10
    } else {
        c as int - 'A' as int + 10
    }
}

/// The first position at or after `i` that is not whitespace.
pub open spec fn skip_ms(s: Seq<char>, i: int) -> int
    decreases s.len() - i,
{
    if 0 <= i < s.len() && is_multispace(s[i]) {
        skip_ms(s, i + 1)
    } else {
        i
    }
}

/// The end of the run of identifier characters starting at `i`.
pub open spec fn word_end(s: Seq<char>, i: int) -> int
    decreases s.len() - i,
{
    if 0 <= i < s.len() && is_word(s[i]) {
        word_end(s, i + 1)
    } else {
        i
    }
}

/// The end of the run of decimal digits and underscores starting at `i`.
pub open spec fn decimal_end(s: Seq<char>, i: int) -> int
    decreases s.len() - i,
{
    if 0 <= i < s.len() && (is_digit(s[i]) || s[i] == '_') {
        decimal_end(s, i + 1)
    } else {
        i
    }
}

/// The end of the run of hexadecimal digits and underscores starting at `i`.
pub open spec fn hex_end(s: Seq<char>, i: int) -> int
    decreases s.len() - i,
{
    if 0 <= i < s.len() && (is_hex_digit(s[i]) || s[i] == '_') {
        hex_end(s, i + 1)
    } else {
        i
    }
}

/// The number written by the digits of `s[i..j]` in `base`, underscores ignored.
pub open spec fn digits_value(s: Seq<char>, i: int, j: int, base: int) -> int
    decreases j - i,
{
    if j <= i {
        0
    } else if s[j - 1] == '_' {
        digits_value(s, i, j - 1, base)
    } else {
        digits_value(s, i, j - 1, base) * base + digit_value(s[j - 1])
    }
}

/// An identifier `[A-Za-z_][A-Za-z0-9_]*` starting at `i`: its end.
pub open spec fn spec_identifier(s: Seq<char>, i: int) -> Option<int> {
    if 0 <= i < s.len() && (is_alpha(s[i]) || s[i] == '_') {
        Some(word_end(s, i + 1))
    } else {
        None
    }
}

/// A decimal literal `([0-9]_*)+` starting at `i`: its value and end, if it fits an `i64`.
pub open spec fn spec_decimal(s: Seq<char>, i: int) -> Option<(i64, int)> {
    if 0 <= i < s.len() && is_digit(s[i]) {
        let e = decimal_end(s, i);
        let v = digits_value(s, i, e, 10);
        if v <= i64::MAX {
            Some((v as i64, e))
        } else {
            None
        }
    } else {
        None
    }
}

/// A hexadecimal literal `0x([0-9a-fA-F]_*)+` starting at `i`: its value and end, if it fits an `i64`.
pub open spec fn spec_hexadecimal(s: Seq<char>, i: int) -> Option<(i64, int)> {
    if 0 <= i && i + 2 < s.len() && s[i] == '0' && (s[i + 1] == 'x' || s[i + 1] == 'X')
        && is_hex_digit(s[i + 2]) {
        let e = hex_end(s, i + 2);
        let v = digits_value(s, i + 2, e, 16);
        if v <= i64::MAX {
            Some((v as i64, e))
        } else {
            None
        }
    } else {
        None
    }
}

/// An integer literal: hexadecimal first, then decimal.
pub open spec fn spec_integer(s: Seq<char>, i: int) -> Option<(i64, int)> {
    match spec_hexadecimal(s, i) {
        Some(r) => Some(r),
        None => spec_decimal(s, i),
    }
}

/// Whether `s` holds the characters `t` from position `i` on.
pub open spec fn has_tag(s: Seq<char>, i: int, t: Seq<char>) -> bool {
    0 <= i && i + t.len() <= s.len() && s.subrange(i, i + t.len()) == t
}

pub open spec fn tag_defined() -> Seq<char> {
    seq!['d', 'e', 'f', 'i', 'n', 'e', 'd']
}

/// `defined(name)` or `defined name` at `i`: the name's bounds and the end of the form.
pub open spec fn spec_defined(s: Seq<char>, i: int) -> Option<(int, int, int)> {
    let first = if has_tag(s, i, tag_defined().push('(')) {
        let a = skip_ms(s, i + 8);
        match spec_identifier(s, a) {
            Some(b) => {
                let c = skip_ms(s, b);
                if c < s.len() && s[c] == ')' {
                    Some((a, b, c + 1))
                } else {
                    None
                }
            },
            None => None,
        }
    } else {
        None
    };
    match first {
        Some(r) => Some(r),
        None => if has_tag(s, i, tag_defined()) && skip_ms(s, i + 7) > i + 7 {
            let a = skip_ms(s, i + 7);
            match spec_identifier(s, a) {
                Some(b) => Some((a, b, b)),
                None => None,
            }
        } else {
            None
        },
    }
}

/// The operator of `level` at `i`, tried in the order in which the parser
/// tries them, and the position after it.
pub open spec fn spec_operator(s: Seq<char>, i: int, level: int) -> Option<(PreprocessorBinOp, int)> {
    let at = |k: int, c: char| 0 <= k < s.len() && s[k] == c;
    if level == 3 {
        if at(i, '%') {
            Some((PreprocessorBinOp::Modulo, i + 1))
        } else if at(i, '/') {
            Some((PreprocessorBinOp::Divide, i + 1))
        } else if at(i, '*') {
            Some((PreprocessorBinOp::Times, i + 1))
        } else {
            None
        }
    } else if level == 4 {
        if at(i, '-') {
            Some((PreprocessorBinOp::Minus, i + 1))
        } else if at(i, '+') {
            Some((PreprocessorBinOp::Plus, i + 1))
        } else {
            None
        }
    } else if level == 5 {
        if at(i, '>') && at(i + 1, '>') {
            Some((PreprocessorBinOp::BitwiseShiftRight, i + 2))
        } else if at(i, '<') && at(i + 1, '<') {
            Some((PreprocessorBinOp::BitwiseShiftLeft, i + 2))
        } else {
            None
        }
    } else if level == 6 {
        if at(i, '>') {
            Some((PreprocessorBinOp::GreaterThan, i + 1))
        } else if at(i, '>') && at(i + 1, '=') {
            Some((PreprocessorBinOp::GreaterOrEqual, i + 2))
        } else if at(i, '<') {
            Some((PreprocessorBinOp::LessThan, i + 1))
        } else if at(i, '<') && at(i + 1, '=') {
            Some((PreprocessorBinOp::LessOrEqual, i + 2))
        } else {
            None
        }
    } else if level == 7 {
        if at(i, '!') && at(i + 1, '=') {
            Some((PreprocessorBinOp::NotEquals, i + 2))
        } else if at(i, '=') && at(i + 1, '=') {
            Some((PreprocessorBinOp::Equals, i + 2))
        } else {
            None
        }
    } else if level == 8 {
        if at(i, '&') {
            Some((PreprocessorBinOp::And, i + 1))
        } else {
            None
        }
    } else if level == 9 {
        if at(i, '^') {
            Some((PreprocessorBinOp::Xor, i + 1))
        } else {
            None
        }
    } else if level == 10 {
        if at(i, '|') {
            Some((PreprocessorBinOp::Or, i + 1))
        } else {
            None
        }
    } else if level == 11 {
        if at(i, '&') && at(i + 1, '&') {
            Some((PreprocessorBinOp::LogicalAnd, i + 2))
        } else {
            None
        }
    } else if level == 12 {
        if at(i, '|') && at(i + 1, '|') {
            Some((PreprocessorBinOp::LogicalOr, i + 2))
        } else {
            None
        }
    } else {
        None
    }
}

/// Parses at `level` (2 is a factor, 3 to 12 the binary operator levels)
/// from position `i`: the expression and the position after it.
pub open spec fn spec_level(s: Seq<char>, i: int, level: int) -> Option<(SpecExpr, int)>
    decreases s.len() - i, level,
    via spec_level_decreases
{
    if !(0 <= i <= s.len()) || level < 2 || level > 12 {
        None
    } else if level == 2 {
        let paren = if i < s.len() && s[i] == '(' {
            match spec_level(s, i + 1, 12) {
                Some((e, j)) => if 0 <= j < s.len() && s[j] == ')' {
                    Some((e, j + 1))
                } else {
                    None
                },
                None => None,
            }
        } else {
            None
        };
        match paren {
            Some(r) => Some(r),
            None => match spec_defined(s, i) {
                Some((a, b, e)) => Some((SpecExpr::Defined(s.subrange(a, b)), skip_ms(s, e))),
                None => match spec_identifier(s, i) {
                    Some(e) => Some((SpecExpr::Identifier(s.subrange(i, e)), skip_ms(s, e))),
                    None => match spec_integer(s, i) {
                        Some((v, e)) => Some((SpecExpr::IntLiteral(v), skip_ms(s, e))),
                        None => None,
                    },
                },
            },
        }
    } else {
        let first = if level == 3 {
            spec_level(s, i, 2)
        } else {
            match spec_level(s, skip_ms(s, i), level - 1) {
                Some((e, j)) => Some((e, skip_ms(s, j))),
                None => None,
            }
        };
        match first {
            Some((e, j)) => if i < j <= s.len() {
                spec_chain(s, j, level, e)
            } else {
                None
            },
            None => None,
        }
    }
}

/// Extends `acc` with the operators of `level` and their operands found from `j` on.
pub open spec fn spec_chain(s: Seq<char>, j: int, level: int, acc: SpecExpr) -> Option<
    (SpecExpr, int),
>
    decreases s.len() - j, level,
    via spec_chain_decreases
{
    if !(0 <= j <= s.len()) || level < 3 || level > 12 {
        None
    } else {
        match spec_operator(s, skip_ms(s, j), level) {
            Some((op, b)) => match spec_level(s, skip_ms(s, b), level - 1) {
                Some((r, k)) => if j < k <= s.len() {
                    spec_chain(s, k, level, SpecExpr::BinOp(op, Box::new(acc), Box::new(r)))
                } else {
                    None
                },
                None => Some((acc, j)),
            },
            None => Some((acc, j)),
        }
    }
}

/// Skipping whitespace never moves backwards nor past the end.
pub proof fn lemma_skip_ms(s: Seq<char>, i: int)
    requires
        0 <= i <= s.len(),
    ensures
        i <= skip_ms(s, i) <= s.len(),
    decreases s.len() - i,
{
    if i < s.len() && is_multispace(s[i]) {
        lemma_skip_ms(s, i + 1);
    }
}

proof fn lemma_operator_advances(s: Seq<char>, i: int, level: int)
    ensures
        spec_operator(s, i, level) matches Some((_, b)) ==> i < b,
{
}

#[via_fn]
proof fn spec_level_decreases(s: Seq<char>, i: int, level: int) {
    if 0 <= i <= s.len() {
        lemma_skip_ms(s, i);
    }
}

#[via_fn]
proof fn spec_chain_decreases(s: Seq<char>, j: int, level: int, acc: SpecExpr) {
    if 0 <= j <= s.len() {
        lemma_skip_ms(s, j);
        let a = skip_ms(s, j);
        lemma_operator_advances(s, a, level);
        if let Some((op, b)) = spec_operator(s, a, level) {
            if b <= s.len() {
                lemma_skip_ms(s, b);
            }
        }
    }
}

/// A whole condition: leading and trailing whitespace skipped, anything after it ignored.
pub open spec fn spec_expression(s: Seq<char>) -> Option<(SpecExpr, int)> {
    match spec_level(s, skip_ms(s, 0), 12) {
        Some((e, j)) => Some((e, skip_ms(s, j))),
        None => None,
    }
}


/// Digit values never make a longer digit string worth less.
pub proof fn lemma_digits_monotone(s: Seq<char>, i: int, k: int, j: int, base: int)
    requires
        i <= k <= j <= s.len(),
        0 <= i,
        base >= 1,
        forall|m: int| i <= m < j ==> (is_hex_digit(#[trigger] s[m]) || s[m] == '_'),
    ensures
        0 <= digits_value(s, i, k, base) <= digits_value(s, i, j, base),
    decreases j - i,
{
    if j > k {
        lemma_digits_monotone(s, i, k, j - 1, base);
        assert(0 <= digit_value(s[j - 1]));
        assert(digits_value(s, i, j - 1, base) <= digits_value(s, i, j - 1, base) * base)
            by (nonlinear_arith)
            requires
                digits_value(s, i, j - 1, base) >= 0,
                base >= 1,
        ;
    } else if j > i {
        lemma_digits_monotone(s, i, i, j - 1, base);
        assert(0 <= digit_value(s[j - 1]));
        assert(0 <= digits_value(s, i, j - 1, base) * base) by (nonlinear_arith)
            requires
                digits_value(s, i, j - 1, base) >= 0,
                base >= 1,
        ;
    }
}

fn at(s: &Vec<char>, i: usize, c: char) -> (r: bool)
    ensures
        r == (i < s.len() && s@[i as int] == c),
{
    i < s.len() && s[i] == c
}

/// Skips whitespace from `i` on.
pub fn skip_multispace(s: &Vec<char>, i: usize) -> (j: usize)
    requires
        i <= s.len(),
    ensures
        j == skip_ms(s@, i as int),
        i <= j <= s.len(),
{
    proof {
        lemma_skip_ms(s@, i as int);
    }
    let mut j = i;
    while j < s.len() && (s[j] == ' ' || s[j] == '\t' || s[j] == '\r' || s[j] == '\n')
        invariant
            i <= j <= s.len(),
            skip_ms(s@, j as int) == skip_ms(s@, i as int),
        decreases s.len() - j,
    {
        j = j + 1;
    }
    j
}

fn is_word_char(c: char) -> (r: bool)
    ensures
        r == is_word(c),
{
    ('a' <= c && c <= 'z') || ('A' <= c && c <= 'Z') || ('0' <= c && c <= '9') || c == '_'
}

fn is_hex_char(c: char) -> (r: bool)
    ensures
        r == is_hex_digit(c),
{
    ('0' <= c && c <= '9') || ('a' <= c && c <= 'f') || ('A' <= c && c <= 'F')
}

/// The end of the run of identifier characters from `i` on.
pub fn scan_word(s: &Vec<char>, i: usize) -> (j: usize)
    requires
        i <= s.len(),
    ensures
        j == word_end(s@, i as int),
        i <= j <= s.len(),
{
    let mut j = i;
    while j < s.len() && is_word_char(s[j])
        invariant
            i <= j <= s.len(),
            word_end(s@, j as int) == word_end(s@, i as int),
        decreases s.len() - j,
    {
        j = j + 1;
    }
    j
}

fn scan_decimal(s: &Vec<char>, i: usize) -> (j: usize)
    requires
        i <= s.len(),
    ensures
        j == decimal_end(s@, i as int),
        i <= j <= s.len(),
        i < s.len() && is_digit(s@[i as int]) ==> i < j,
        forall|m: int| i <= m < j ==> (is_digit(#[trigger] s@[m]) || s@[m] == '_'),
{
    let mut j = i;
    while j < s.len() && (('0' <= s[j] && s[j] <= '9') || s[j] == '_')
        invariant
            i <= j <= s.len(),
            decimal_end(s@, j as int) == decimal_end(s@, i as int),
            forall|m: int| i <= m < j ==> (is_digit(#[trigger] s@[m]) || s@[m] == '_'),
        decreases s.len() - j,
    {
        j = j + 1;
    }
    j
}

fn scan_hex(s: &Vec<char>, i: usize) -> (j: usize)
    requires
        i <= s.len(),
    ensures
        j == hex_end(s@, i as int),
        i <= j <= s.len(),
        forall|m: int| i <= m < j ==> (is_hex_digit(#[trigger] s@[m]) || s@[m] == '_'),
{
    let mut j = i;
    while j < s.len() && (is_hex_char(s[j]) || s[j] == '_')
        invariant
            i <= j <= s.len(),
            hex_end(s@, j as int) == hex_end(s@, i as int),
            forall|m: int| i <= m < j ==> (is_hex_digit(#[trigger] s@[m]) || s@[m] == '_'),
        decreases s.len() - j,
    {
        j = j + 1;
    }
    j
}

/// The value of the digits in `s[i..j]` (underscores skipped), unless it exceeds `i64::MAX`.
pub fn digits_to_i64(s: &Vec<char>, i: usize, j: usize, base: i64) -> (r: Option<i64>)
    requires
        i <= j <= s.len(),
        2 <= base <= 36,
        forall|m: int| i <= m < j ==> (is_hex_digit(#[trigger] s@[m]) || s@[m] == '_'),
    ensures
        r == (if digits_value(s@, i as int, j as int, base as int) <= i64::MAX {
            Some(digits_value(s@, i as int, j as int, base as int) as i64)
        } else {
            None::<i64>
        }),
        0 <= digits_value(s@, i as int, j as int, base as int),
{
    proof {
        lemma_digits_monotone(s@, i as int, i as int, j as int, base as int);
    }
    let mut v: i64 = 0;
    let mut k = i;
    while k < j
        invariant
            i <= k <= j <= s.len(),
            2 <= base <= 36,
            forall|m: int| i <= m < j ==> (is_hex_digit(#[trigger] s@[m]) || s@[m] == '_'),
            v == digits_value(s@, i as int, k as int, base as int),
        decreases j - k,
    {
        let c = s[k];
        proof {
            lemma_digits_monotone(s@, i as int, k as int, k as int + 1, base as int);
        }
        if c != '_' {
            let d: i64 = if '0' <= c && c <= '9' {
                (c as u32 - '0' as u32) as i64
            } else if 'a' <= c && c <= 'z' {
                (c as u32 - 'a' as u32 + 10) as i64
            } else {
                (c as u32 - 'A' as u32 + 10) as i64
            };
            match v.checked_mul(base) {
                Some(w) => match w.checked_add(d) {
                    Some(x) => {
                        v = x;
                    },
                    None => {
                        proof {
                            lemma_digits_monotone(s@, i as int, k as int + 1, j as int, base as int);
                        }
                        return None;
                    },
                },
                None => {
                    proof {
                        lemma_digits_monotone(s@, i as int, k as int + 1, j as int, base as int);
                        assert(d >= 0);
                    }
                    return None;
                },
            }
        }
        k = k + 1;
    }
    Some(v)
}

fn identifier_end(s: &Vec<char>, i: usize) -> (r: Option<usize>)
    requires
        i <= s.len(),
    ensures
        r matches Some(e) ==> spec_identifier(s@, i as int) == Some(e as int) && i < e <= s.len(),
        r is None ==> spec_identifier(s@, i as int) is None,
{
    if i < s.len() && (('a' <= s[i] && s[i] <= 'z') || ('A' <= s[i] && s[i] <= 'Z') || s[i] == '_') {
        Some(scan_word(s, i + 1))
    } else {
        None
    }
}

fn parse_integer(s: &Vec<char>, i: usize) -> (r: Option<(i64, usize)>)
    requires
        i <= s.len(),
    ensures
        r matches Some((v, e)) ==> spec_integer(s@, i as int) == Some((v, e as int)) && i < e <= s.len(),
        r is None ==> spec_integer(s@, i as int) is None,
{
    if i < s.len() && s.len() - i > 2 && s[i] == '0' && (s[i + 1] == 'x' || s[i + 1] == 'X') && is_hex_char(s[i + 2]) {
        let e = scan_hex(s, i + 2);
        if let Some(v) = digits_to_i64(s, i + 2, e, 16) {
            return Some((v, e));
        }
        assert(spec_hexadecimal(s@, i as int) is None);
    } else {
        assert(spec_hexadecimal(s@, i as int) is None);
    }
    if i < s.len() && '0' <= s[i] && s[i] <= '9' {
        let e = scan_decimal(s, i);
        if let Some(v) = digits_to_i64(s, i, e, 10) {
            return Some((v, e));
        }
    }
    None
}

fn has_defined_tag(s: &Vec<char>, i: usize) -> (r: bool)
    requires
        i <= s.len(),
    ensures
        r == has_tag(s@, i as int, tag_defined()),
{
    let r = i <= s.len() && s.len() - i >= 7 && s[i] == 'd' && s[i + 1] == 'e' && s[i + 2] == 'f' && s[i + 3] == 'i'
        && s[i + 4] == 'n' && s[i + 5] == 'e' && s[i + 6] == 'd';
    proof {
        if r {
            assert(s@.subrange(i as int, i + 7) =~= tag_defined());
        } else if i + 7 <= s.len() {
            if s@.subrange(i as int, i + 7) == tag_defined() {
                assert(s@.subrange(i as int, i + 7)[0] == 'd');
                assert(s@.subrange(i as int, i + 7)[1] == 'e');
                assert(s@.subrange(i as int, i + 7)[2] == 'f');
                assert(s@.subrange(i as int, i + 7)[3] == 'i');
                assert(s@.subrange(i as int, i + 7)[4] == 'n');
                assert(s@.subrange(i as int, i + 7)[5] == 'e');
                assert(s@.subrange(i as int, i + 7)[6] == 'd');
            }
        }
    }
    r
}

fn parse_defined(s: &Vec<char>, i: usize) -> (r: Option<(usize, usize, usize)>)
    requires
        i <= s.len(),
    ensures
        r matches Some((a, b, e)) ==> spec_defined(s@, i as int) == Some((a as int, b as int, e as int))
            && i < a <= b <= e <= s.len(),
        r is None ==> spec_defined(s@, i as int) is None,
{
    let tagged = has_defined_tag(s, i);
    proof {
        let t = tag_defined().push('(');
        if has_tag(s@, i as int, t) {
            assert(s@.subrange(i as int, i + 7) =~= s@.subrange(i as int, i + 8).subrange(0, 7));
            assert(s@.subrange(i as int, i + 8).subrange(0, 7) =~= t.subrange(0, 7));
            assert(t.subrange(0, 7) =~= tag_defined());
            assert(s@[i + 7] == s@.subrange(i as int, i + 8)[7]);
        } else if tagged && i + 8 <= s.len() && s@[i + 7] == '(' {
            assert(s@.subrange(i as int, i + 8) =~= s@.subrange(i as int, i + 7).push('('));
        }
    }
    if tagged && s.len() - i >= 8 && s[i + 7] == '(' {
        let a = skip_multispace(s, i + 8);
        if let Some(b) = identifier_end(s, a) {
            let c = skip_multispace(s, b);
            if c < s.len() && s[c] == ')' {
                return Some((a, b, c + 1));
            }
        }
    }
    if tagged {
        let a = skip_multispace(s, i + 7);
        if a > i + 7 {
            if let Some(b) = identifier_end(s, a) {
                return Some((a, b, b));
            }
        }
    }
    None
}

fn parse_operator(s: &Vec<char>, i: usize, level: u8) -> (r: Option<(PreprocessorBinOp, usize)>)
    requires
        i <= s.len(),
    ensures
        r matches Some((op, b)) ==> spec_operator(s@, i as int, level as int) == Some((op, b as int))
            && i < b <= s.len(),
        r is None ==> spec_operator(s@, i as int, level as int) is None,
{
    if level == 3 {
        if at(s, i, '%') {
            Some((PreprocessorBinOp::Modulo, i + 1))
        } else if at(s, i, '/') {
            Some((PreprocessorBinOp::Divide, i + 1))
        } else if at(s, i, '*') {
            Some((PreprocessorBinOp::Times, i + 1))
        } else {
            None
        }
    } else if level == 4 {
        if at(s, i, '-') {
            Some((PreprocessorBinOp::Minus, i + 1))
        } else if at(s, i, '+') {
            Some((PreprocessorBinOp::Plus, i + 1))
        } else {
            None
        }
    } else if level == 5 {
        if at(s, i, '>') && at(s, i + 1, '>') {
            Some((PreprocessorBinOp::BitwiseShiftRight, i + 2))
        } else if at(s, i, '<') && at(s, i + 1, '<') {
            Some((PreprocessorBinOp::BitwiseShiftLeft, i + 2))
        } else {
            None
        }
    } else if level == 6 {
        if at(s, i, '>') {
            Some((PreprocessorBinOp::GreaterThan, i + 1))
        } else if at(s, i, '<') {
            Some((PreprocessorBinOp::LessThan, i + 1))
        } else {
            None
        }
    } else if level == 7 {
        if at(s, i, '!') && at(s, i + 1, '=') {
            Some((PreprocessorBinOp::NotEquals, i + 2))
        } else if at(s, i, '=') && at(s, i + 1, '=') {
            Some((PreprocessorBinOp::Equals, i + 2))
        } else {
            None
        }
    } else if level == 8 {
        if at(s, i, '&') {
            Some((PreprocessorBinOp::And, i + 1))
        } else {
            None
        }
    } else if level == 9 {
        if at(s, i, '^') {
            Some((PreprocessorBinOp::Xor, i + 1))
        } else {
            None
        }
    } else if level == 10 {
        if at(s, i, '|') {
            Some((PreprocessorBinOp::Or, i + 1))
        } else {
            None
        }
    } else if level == 11 {
        if at(s, i, '&') && at(s, i + 1, '&') {
            Some((PreprocessorBinOp::LogicalAnd, i + 2))
        } else {
            None
        }
    } else if level == 12 {
        if at(s, i, '|') && at(s, i + 1, '|') {
            Some((PreprocessorBinOp::LogicalOr, i + 2))
        } else {
            None
        }
    } else {
        None
    }
}

/// Parses a factor (`level` 2) or a chain of binary operators (`level` 3 to 12) from `i` on.
pub fn parse_level(s: &Vec<char>, i: usize, level: u8) -> (r: Option<(PreprocessorExpression, usize)>)
    requires
        i <= s.len(),
        2 <= level <= 12,
    ensures
        r matches Some((e, j)) ==> spec_level(s@, i as int, level as int) == Some((e@, j as int))
            && i < j <= s.len(),
        r is None ==> spec_level(s@, i as int, level as int) is None,
    decreases s.len() - i, level,
{
    if level == 2 {
        if i < s.len() && s[i] == '(' {
            if let Some((e, j)) = parse_level(s, i + 1, 12) {
                if j < s.len() && s[j] == ')' {
                    return Some((e, j + 1));
                }
            }
        }
        if let Some((a, b, e)) = parse_defined(s, i) {
            let name = string_of(s, a, b);
            return Some((PreprocessorExpression::Defined(name), skip_multispace(s, e)));
        }
        if let Some(e) = identifier_end(s, i) {
            let name = string_of(s, i, e);
            return Some((PreprocessorExpression::Identifier(name), skip_multispace(s, e)));
        }
        if let Some((v, e)) = parse_integer(s, i) {
            return Some((PreprocessorExpression::IntLiteral(v), skip_multispace(s, e)));
        }
        return None;
    }
    let first = if level == 3 {
        parse_level(s, i, 2)
    } else {
        let a = skip_multispace(s, i);
        match parse_level(s, a, level - 1) {
            Some((e, j)) => Some((e, skip_multispace(s, j))),
            None => None,
        }
    };
    let (mut acc, mut j) = match first {
        Some(f) => f,
        None => {
            return None;
        },
    };
    let ghost j0 = j;
    let ghost e0 = acc@;
    assert(spec_level(s@, i as int, level as int) == spec_chain(s@, j0 as int, level as int, e0));
    loop
        invariant
            i < j <= s.len(),
            3 <= level <= 12,
            spec_chain(s@, j as int, level as int, acc@) == spec_chain(
                s@,
                j0 as int,
                level as int,
                e0,
            ),
            spec_level(s@, i as int, level as int) == spec_chain(s@, j0 as int, level as int, e0),
        decreases s.len() - j,
    {
        let a = skip_multispace(s, j);
        let (op, b) = match parse_operator(s, a, level) {
            Some(x) => x,
            None => {
                return Some((acc, j));
            },
        };
        let c = skip_multispace(s, b);
        let (r, k) = match parse_level(s, c, level - 1) {
            Some(x) => x,
            None => {
                return Some((acc, j));
            },
        };
        acc = PreprocessorExpression::BinOp(op, Box::new(acc), Box::new(r));
        j = k;
    }
}

/// Parses a whole condition; whitespace around it is skipped and anything after it is ignored.
pub fn parse_expression(s: &Vec<char>) -> (r: Option<(PreprocessorExpression, usize)>)
    ensures
        r matches Some((e, j)) ==> spec_expression(s@) == Some((e@, j as int)) && j <= s.len(),
        r is None ==> spec_expression(s@) is None,
{
    let a = skip_multispace(s, 0);
    match parse_level(s, a, 12) {
        Some((e, j)) => Some((e, skip_multispace(s, j))),
        None => None,
    }
}


/// Parses a factor at the start of `input`: a parenthesised condition,
/// `defined(..)`, an identifier or an integer, with the whitespace after it.
/// Gives what is left of `input` and the factor.
pub fn factor(input: &str) -> (r: Option<(String, PreprocessorExpression)>)
    ensures
        match spec_level(input@, 0, 2) {
            Some((e, j)) => r matches Some((rest, x)) && x@ == e && rest@ == input@.subrange(j, input@.len() as int),
            None => r is None,
        },
{
    let s = chars_of(input);
    match parse_level(&s, 0, 2) {
        Some((e, j)) => Some((string_of(&s, j, s.len()), e)),
        None => None,
    }
}

/// Parses a chain of `*`, `/` and `%` at the start of `input`. Gives what is
/// left of `input` and the expression.
pub fn exp3(input: &str) -> (r: Option<(String, PreprocessorExpression)>)
    ensures
        match spec_level(input@, 0, 3) {
            Some((e, j)) => r matches Some((rest, x)) && x@ == e && rest@ == input@.subrange(j, input@.len() as int),
            None => r is None,
        },
{
    let s = chars_of(input);
    match parse_level(&s, 0, 3) {
        Some((e, j)) => Some((string_of(&s, j, s.len()), e)),
        None => None,
    }
}

/// Parses a whole condition at the start of `input` (see [`spec_expression`]).
/// Gives what is left of `input` and the condition.
pub fn expression(input: &str) -> (r: Option<(String, PreprocessorExpression)>)
    ensures
        match spec_expression(input@) {
            Some((e, j)) => r matches Some((rest, x)) && x@ == e && rest@ == input@.subrange(j, input@.len() as int),
            None => r is None,
        },
{
    let s = chars_of(input);
    match parse_expression(&s) {
        Some((e, j)) => Some((string_of(&s, j, s.len()), e)),
        None => None,
    }
}

} // verus!
