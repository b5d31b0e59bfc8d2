//! The P4 preprocessor: directives, conditional inclusion and macro definitions.
use vstd::prelude::*;

pub mod parser;

use crate::text::chars_of;
use parser::{parse_expression, spec_expression};

pub mod evaluate;
pub mod state;

verus! {

/// How the path of an `#include` is quoted.
#[derive(Clone, Copy, Debug, PartialEq, Eq, Structural, PartialOrd, Ord)]
pub enum PreprocessorQuotationStyle {
    AngleBrackets,
    DoubleQuotes,
}

/// The binary operators of preprocessor conditions.
#[derive(Clone, Copy, Debug, PartialEq, Eq, Structural, PartialOrd, Ord)]
pub enum PreprocessorBinOp {
    Or,
    Xor,
    And,
    Plus,
    Minus,
    Times,
    Divide,
    Modulo,
    Equals,
    NotEquals,
    LogicalOr,
    LogicalAnd,
    LessThan,
    LessOrEqual,
    GreaterThan,
    GreaterOrEqual,
    BitwiseShiftLeft,
    BitwiseShiftRight,
}

/// A preprocessor condition, as written after `#if` and `#elif`.
#[derive(Debug, PartialEq, Eq, PartialOrd, Ord)]
pub enum PreprocessorExpression {
    IntLiteral(i64),
    Identifier(String),
    BinOp(PreprocessorBinOp, Box<PreprocessorExpression>, Box<PreprocessorExpression>),
    Not(Box<PreprocessorExpression>),
    Defined(String),
}

/// The mathematical model of a [`PreprocessorExpression`]: names are character sequences.
pub enum SpecExpr {
    IntLiteral(i64),
    Identifier(Seq<char>),
    BinOp(PreprocessorBinOp, Box<SpecExpr>, Box<SpecExpr>),
    Not(Box<SpecExpr>),
    Defined(Seq<char>),
}

impl Clone for PreprocessorExpression {
    fn clone(&self) -> (r: Self)
        ensures
            r == *self,
        decreases self,
    {
        match self {
            PreprocessorExpression::IntLiteral(n) => PreprocessorExpression::IntLiteral(*n),
            PreprocessorExpression::Identifier(s) => PreprocessorExpression::Identifier(s.clone()),
            PreprocessorExpression::BinOp(op, l, r) => {
                let l2 = (**l).clone();
                let r2 = (**r).clone();
                PreprocessorExpression::BinOp(*op, Box::new(l2), Box::new(r2))
            },
            PreprocessorExpression::Not(x) => {
                let x2 = (**x).clone();
                PreprocessorExpression::Not(Box::new(x2))
            },
            PreprocessorExpression::Defined(s) => PreprocessorExpression::Defined(s.clone()),
        }
    }
}

/// The model of an expression.
pub open spec fn expr_view(e: PreprocessorExpression) -> SpecExpr
    decreases e,
{
    match e {
        PreprocessorExpression::IntLiteral(n) => SpecExpr::IntLiteral(n),
        PreprocessorExpression::Identifier(s) => SpecExpr::Identifier(s@),
        PreprocessorExpression::BinOp(op, l, r) => SpecExpr::BinOp(
            op,
            Box::new(expr_view(*l)),
            Box::new(expr_view(*r)),
        ),
        PreprocessorExpression::Not(x) => SpecExpr::Not(Box::new(expr_view(*x))),
        PreprocessorExpression::Defined(s) => SpecExpr::Defined(s@),
    }
}

impl View for PreprocessorExpression {
    type V = SpecExpr;

    open spec fn view(&self) -> SpecExpr {
        expr_view(*self)
    }
}

/// A directive as recognised by the lexer.
#[derive(Debug, PartialEq, Eq, PartialOrd, Ord)]
pub enum PreprocessorDirective {
    Include(PreprocessorQuotationStyle, String),
    If(PreprocessorExpression),
    ElseIf(PreprocessorExpression),
    Else,
    EndIf,
    Define(String, String),
    Undef(String),
    Pragma(String),
    Other(String, String),
}

impl Clone for PreprocessorDirective {
    fn clone(&self) -> (r: Self)
        ensures
            r == *self,
    {
        match self {
            PreprocessorDirective::Include(q, p) => PreprocessorDirective::Include(*q, p.clone()),
            PreprocessorDirective::If(e) => PreprocessorDirective::If(e.clone()),
            PreprocessorDirective::ElseIf(e) => PreprocessorDirective::ElseIf(e.clone()),
            PreprocessorDirective::Else => PreprocessorDirective::Else,
            PreprocessorDirective::EndIf => PreprocessorDirective::EndIf,
            PreprocessorDirective::Define(k, v) => PreprocessorDirective::Define(k.clone(), v.clone()),
            PreprocessorDirective::Undef(k) => PreprocessorDirective::Undef(k.clone()),
            PreprocessorDirective::Pragma(p) => PreprocessorDirective::Pragma(p.clone()),
            PreprocessorDirective::Other(n, a) => PreprocessorDirective::Other(n.clone(), a.clone()),
        }
    }
}

/// The model of a [`PreprocessorDirective`].
pub enum SpecDirective {
    Include(PreprocessorQuotationStyle, Seq<char>),
    If(SpecExpr),
    ElseIf(SpecExpr),
    Else,
    EndIf,
    Define(Seq<char>, Seq<char>),
    Undef(Seq<char>),
    Pragma(Seq<char>),
    Other(Seq<char>, Seq<char>),
}

impl View for PreprocessorDirective {
    type V = SpecDirective;

    open spec fn view(&self) -> SpecDirective {
        match self {
            PreprocessorDirective::Include(q, p) => SpecDirective::Include(*q, p@),
            PreprocessorDirective::If(e) => SpecDirective::If(e@),
            PreprocessorDirective::ElseIf(e) => SpecDirective::ElseIf(e@),
            PreprocessorDirective::Else => SpecDirective::Else,
            PreprocessorDirective::EndIf => SpecDirective::EndIf,
            PreprocessorDirective::Define(k, v) => SpecDirective::Define(k@, v@),
            PreprocessorDirective::Undef(k) => SpecDirective::Undef(k@),
            PreprocessorDirective::Pragma(p) => SpecDirective::Pragma(p@),
            PreprocessorDirective::Other(n, a) => SpecDirective::Other(n@, a@),
        }
    }
}


/// Whether two strings hold the same text.
fn same_string(a: &String, b: &String) -> (r: bool)
    ensures
        r == (a@ == b@),
{
    crate::text::same_text(a.as_str(), b.as_str())
}

/// Whether two conditions are the same expression.
pub fn same_expression(a: &PreprocessorExpression, b: &PreprocessorExpression) -> (r: bool)
    ensures
        r == (a@ == b@),
    decreases a,
{
    match (a, b) {
        (PreprocessorExpression::IntLiteral(x), PreprocessorExpression::IntLiteral(y)) => *x == *y,
        (PreprocessorExpression::Identifier(x), PreprocessorExpression::Identifier(y)) => same_string(x, y),
        (PreprocessorExpression::Defined(x), PreprocessorExpression::Defined(y)) => same_string(x, y),
        (PreprocessorExpression::Not(x), PreprocessorExpression::Not(y)) => {
            let r = same_expression(&**x, &**y);
            proof {
                if !r {
                    assert(a@->Not_0 != b@->Not_0);
                }
            }
            r
        },
        (PreprocessorExpression::BinOp(o1, l1, r1), PreprocessorExpression::BinOp(o2, l2, r2)) => {
            if *o1 != *o2 {
                return false;
            }
            let left = same_expression(&**l1, &**l2);
            if !left {
                assert(a@->BinOp_1 != b@->BinOp_1);
                return false;
            }
            let right = same_expression(&**r1, &**r2);
            proof {
                if !right {
                    assert(a@->BinOp_2 != b@->BinOp_2);
                }
            }
            right
        },
        _ => false,
    }
}

/// Whether two directives are the same.
pub fn same_directive(a: &PreprocessorDirective, b: &PreprocessorDirective) -> (r: bool)
    ensures
        r == (a@ == b@),
{
    match (a, b) {
        (PreprocessorDirective::Include(q1, p1), PreprocessorDirective::Include(q2, p2)) => *q1 == *q2
            && same_string(p1, p2),
        (PreprocessorDirective::If(x), PreprocessorDirective::If(y)) => same_expression(x, y),
        (PreprocessorDirective::ElseIf(x), PreprocessorDirective::ElseIf(y)) => same_expression(x, y),
        (PreprocessorDirective::Else, PreprocessorDirective::Else) => true,
        (PreprocessorDirective::EndIf, PreprocessorDirective::EndIf) => true,
        (PreprocessorDirective::Define(k1, v1), PreprocessorDirective::Define(k2, v2)) => same_string(k1, k2)
            && same_string(v1, v2),
        (PreprocessorDirective::Undef(x), PreprocessorDirective::Undef(y)) => same_string(x, y),
        (PreprocessorDirective::Pragma(x), PreprocessorDirective::Pragma(y)) => same_string(x, y),
        (PreprocessorDirective::Other(n1, a1), PreprocessorDirective::Other(n2, a2)) => same_string(n1, n2)
            && same_string(a1, a2),
        _ => false,
    }
}

/// Parses a preprocessor condition; `None` when no condition can be read at
/// its start. Anything after the condition is ignored.
pub fn parse_pp_expression(buf: String) -> (r: Option<PreprocessorExpression>)
    ensures
        r is Some <==> spec_expression(buf@) is Some,
        r matches Some(e) ==> (spec_expression(buf@) matches Some((x, _)) && e@ == x),
{
    let chars = chars_of(buf.as_str());
    match parse_expression(&chars) {
        Some((e, _)) => Some(e),
        None => None,
    }
}

} // verus!
