//! Evaluation of preprocessor conditions against the macro definitions.
use vstd::prelude::*;

use super::parser::{parse_expression, spec_expression};
use super::{PreprocessorBinOp, PreprocessorExpression, SpecExpr};
use crate::text::chars_of;

verus! {

/// The macro definitions, in the order in which they were first made: name and replacement text.
pub type SpecDefinitions = Seq<(Seq<char>, Seq<char>)>;

/// The index of the first definition of `name` at or after `i`.
pub open spec fn find_definition(defs: SpecDefinitions, name: Seq<char>, i: int) -> Option<int>
    decreases defs.len() - i,
{
    if !(0 <= i < defs.len()) {
        None
    } else if defs[i].0 == name {
        Some(i)
    } else {
        find_definition(defs, name, i + 1)
    }
}

/// The replacement text of `name`, if it is defined.
pub open spec fn lookup(defs: SpecDefinitions, name: Seq<char>) -> Option<Seq<char>> {
    match find_definition(defs, name, 0) {
        Some(i) => Some(defs[i].1),
        None => None,
    }
}

/// No name has two definitions.
pub open spec fn distinct_names(defs: SpecDefinitions) -> bool {
    forall|i: int, j: int| 0 <= i < j < defs.len() ==> #[trigger] defs[i].0 != #[trigger] defs[j].0
}

/// The first definition of `name` at or after `i` is the first entry from `i` on with that
/// name; there is none when no entry from `i` on has it.
pub proof fn lemma_find_definition(defs: SpecDefinitions, name: Seq<char>, i: int)
    requires
        0 <= i,
    ensures
        find_definition(defs, name, i) matches Some(k) ==> i <= k < defs.len() && defs[k].0 == name
            && forall|j: int| i <= j < k ==> #[trigger] defs[j].0 != name,
        find_definition(defs, name, i) is None ==> forall|j: int| i <= j < defs.len() ==> #[trigger] defs[j].0 != name,
    decreases defs.len() - i,
{
    if 0 <= i < defs.len() && defs[i].0 != name {
        lemma_find_definition(defs, name, i + 1);
    }
}

/// `defs` after `#define name text`: an existing definition is replaced in place.
pub open spec fn define(defs: SpecDefinitions, name: Seq<char>, text: Seq<char>) -> SpecDefinitions {
    match find_definition(defs, name, 0) {
        Some(i) => defs.update(i, (name, text)),
        None => defs.push((name, text)),
    }
}

/// `defs` after `#undef name`.
pub open spec fn undefine(defs: SpecDefinitions, name: Seq<char>) -> SpecDefinitions {
    match find_definition(defs, name, 0) {
        Some(i) => defs.remove(i),
        None => defs,
    }
}

/// The value of `a op b` on 64-bit integers; `None` where the operation
/// overflows, divides by zero or shifts by an amount outside `0..64`.
///
/// Note that `>>` gives `b >> b`, the right operand shifted by itself, and not
/// `a >> b`: the evaluation is kept as it stands, since nothing documents which
/// result is meant.
pub open spec fn spec_apply(op: PreprocessorBinOp, a: i64, b: i64) -> Option<i64> {
    match op {
        PreprocessorBinOp::Or => Some(a | b),
        PreprocessorBinOp::Xor => Some(a ^ b),
        PreprocessorBinOp::And => Some(a & b),
        PreprocessorBinOp::Plus => a.checked_add(b),
        PreprocessorBinOp::Minus => a.checked_sub(b),
        PreprocessorBinOp::Times => a.checked_mul(b),
        PreprocessorBinOp::Divide => a.checked_div(b),
        PreprocessorBinOp::Modulo => a.checked_rem(b),
        PreprocessorBinOp::Equals => Some(if a == b { 1 } else { 0 }),
        PreprocessorBinOp::NotEquals => Some(if a != b { 1 } else { 0 }),
        PreprocessorBinOp::LogicalOr => Some(if a != 0 || b != 0 { 1 } else { 0 }),
        PreprocessorBinOp::LogicalAnd => Some(if a != 0 && b != 0 { 1 } else { 0 }),
        PreprocessorBinOp::LessThan => Some(if a < b { 1 } else { 0 }),
        PreprocessorBinOp::LessOrEqual => Some(if a <= b { 1 } else { 0 }),
        PreprocessorBinOp::GreaterThan => Some(if a > b { 1 } else { 0 }),
        PreprocessorBinOp::GreaterOrEqual => Some(if a >= b { 1 } else { 0 }),
        PreprocessorBinOp::BitwiseShiftLeft => if 0 <= b < 64 {
            Some(a << (b as u32))
        } else {
            None
        },
        PreprocessorBinOp::BitwiseShiftRight => if 0 <= b < 64 {
            Some(b >> (b as u32))
        } else {
            None
        },
    }
}

/// Evaluates `e`. The outer `None` is a fault: an arithmetic fault, or the
/// expansion of a macro that is already being expanded (which never ends).
/// The inner `None` is an expression without a value: an undefined name, or
/// a replacement text that is no expression. `expanding` lists the macros
/// being expanded; `fuel` bounds the depth of expansion.
pub open spec fn spec_eval(defs: SpecDefinitions, e: SpecExpr, expanding: Seq<Seq<char>>, fuel: nat) -> Option<Option<i64>>
    decreases fuel, e,
{
    match e {
        SpecExpr::IntLiteral(n) => Some(Some(n)),
        SpecExpr::Identifier(name) => match lookup(defs, name) {
            None => Some(None),
            Some(text) => if expanding.contains(name) || fuel == 0 {
                None
            } else {
                match spec_expression(text) {
                    None => Some(None),
                    Some((x, _)) => spec_eval(defs, x, expanding.push(name), (fuel - 1) as nat),
                }
            },
        },
        SpecExpr::BinOp(op, l, r) => match spec_eval(defs, *l, expanding, fuel) {
            None => None,
            Some(None) => Some(None),
            Some(Some(a)) => match spec_eval(defs, *r, expanding, fuel) {
                None => None,
                Some(None) => Some(None),
                Some(Some(b)) => match spec_apply(op, a, b) {
                    None => None,
                    Some(v) => Some(Some(v)),
                },
            },
        },
        SpecExpr::Not(x) => match spec_eval(defs, *x, expanding, fuel) {
            None => None,
            Some(v) => Some(Some(if spec_truthy(v) { 0 } else { 1 })),
        },
        SpecExpr::Defined(name) => Some(Some(if lookup(defs, name) is Some { 1 } else { 0 })),
    }
}

/// A value read as a condition: defined and non-zero.
pub open spec fn spec_truthy(v: Option<i64>) -> bool {
    match v {
        Some(n) => n != 0,
        None => false,
    }
}

/// The value of `e` with no macro being expanded yet.
pub open spec fn spec_value(defs: SpecDefinitions, e: SpecExpr) -> Option<Option<i64>> {
    spec_eval(defs, e, seq![], defs.len())
}

/// `e` read as a condition; `None` is a fault.
pub open spec fn spec_condition(defs: SpecDefinitions, e: SpecExpr) -> Option<bool> {
    match spec_value(defs, e) {
        None => None,
        Some(v) => Some(spec_truthy(v)),
    }
}

/// The macro definitions: name and replacement text, in the order in which
/// they were first made.
pub struct Definitions {
    entries: Vec<(String, String)>,
}

impl View for Definitions {
    type V = SpecDefinitions;

    closed spec fn view(&self) -> SpecDefinitions {
        self.entries@.map_values(|e: (String, String)| (e.0@, e.1@))
    }
}

impl Definitions {
    /// A name is defined at most once.
    #[verifier::type_invariant]
    closed spec fn names_are_distinct(&self) -> bool {
        distinct_names(self@)
    }

    /// No definitions.
    pub fn new() -> (r: Self)
        ensures
            r@ == Seq::<(Seq<char>, Seq<char>)>::empty(),
    {
        let r = Definitions { entries: Vec::new() };
        assert(r@ =~= Seq::<(Seq<char>, Seq<char>)>::empty());
        r
    }

    /// The number of definitions.
    pub fn len(&self) -> (n: usize)
        ensures
            n == self@.len(),
    {
        self.entries.len()
    }

    /// The index of the definition of `name`, if any.
    pub fn find(&self, name: &String) -> (r: Option<usize>)
        ensures
            r matches Some(i) ==> find_definition(self@, name@, 0) == Some(i as int) && i < self@.len(),
            r matches Some(i) ==> forall|j: int| 0 <= j < self@.len() && j != i ==> #[trigger] self@[j].0 != name@,
            r is None ==> find_definition(self@, name@, 0) is None,
            r is None ==> forall|j: int| 0 <= j < self@.len() ==> #[trigger] self@[j].0 != name@,
    {
        proof {
            use_type_invariant(self);
            lemma_find_definition(self@, name@, 0);
        }
        let mut i: usize = 0;
        while i < self.entries.len()
            invariant
                i <= self.entries.len(),
                find_definition(self@, name@, i as int) == find_definition(self@, name@, 0),
                distinct_names(self@),
            decreases self.entries.len() - i,
        {
            if self.entries[i].0 == *name {
                assert(self@[i as int].0 == name@);
                assert forall|j: int| 0 <= j < self@.len() && j != i implies #[trigger] self@[j].0 != name@ by {
                    if j < i {
                        assert(self@[j].0 != self@[i as int].0);
                    } else {
                        assert(self@[i as int].0 != self@[j].0);
                    }
                }
                return Some(i);
            }
            i = i + 1;
        }
        None
    }

    /// The replacement text of `name`, if it is defined.
    pub fn get(&self, name: &String) -> (r: Option<&String>)
        ensures
            match lookup(self@, name@) {
                Some(t) => r matches Some(x) && x@ == t,
                None => r is None,
            },
    {
        match self.find(name) {
            Some(i) => Some(&self.entries[i].1),
            None => None,
        }
    }

    /// Whether `name` is defined.
    pub fn contains_key(&self, name: &String) -> (r: bool)
        ensures
            r == lookup(self@, name@) is Some,
    {
        self.find(name).is_some()
    }

    /// Defines `name` as `text`, replacing an existing definition.
    pub fn insert(&mut self, name: String, text: String)
        ensures
            final(self)@ == define(old(self)@, name@, text@),
            distinct_names(final(self)@),
    {
        proof {
            use_type_invariant(&*self);
            lemma_find_definition(self@, name@, 0);
        }
        let found = self.find(&name);
        let ghost before = self@;
        let ghost n = name@;
        let ghost t = text@;
        let mut entries: Vec<(String, String)> = Vec::new();
        std::mem::swap(&mut entries, &mut self.entries);
        assert(entries@.map_values(|e: (String, String)| (e.0@, e.1@)) == before);
        match found {
            Some(i) => {
                entries.set(i, (name, text));
                assert(entries@.map_values(|e: (String, String)| (e.0@, e.1@)) =~= before.update(i as int, (n, t)));
            },
            None => {
                entries.push((name, text));
                assert(entries@.map_values(|e: (String, String)| (e.0@, e.1@)) =~= before.push((n, t)));
            },
        }
        self.entries = entries;
    }

    /// Removes the definition of `name`, if any.
    pub fn remove(&mut self, name: &String)
        ensures
            final(self)@ == undefine(old(self)@, name@),
            distinct_names(final(self)@),
    {
        proof {
            use_type_invariant(&*self);
        }
        if let Some(i) = self.find(name) {
            let ghost before = self@;
            let mut entries: Vec<(String, String)> = Vec::new();
            std::mem::swap(&mut entries, &mut self.entries);
            assert(entries@.map_values(|e: (String, String)| (e.0@, e.1@)) == before);
            entries.remove(i);
            assert(entries@.map_values(|e: (String, String)| (e.0@, e.1@)) =~= before.remove(i as int));
            self.entries = entries;
        }
    }
}

fn apply(op: PreprocessorBinOp, a: i64, b: i64) -> (r: Option<i64>)
    ensures
        r == spec_apply(op, a, b),
{
    match op {
        PreprocessorBinOp::Or => Some(a | b),
        PreprocessorBinOp::Xor => Some(a ^ b),
        PreprocessorBinOp::And => Some(a & b),
        PreprocessorBinOp::Plus => a.checked_add(b),
        PreprocessorBinOp::Minus => a.checked_sub(b),
        PreprocessorBinOp::Times => a.checked_mul(b),
        PreprocessorBinOp::Divide => a.checked_div(b),
        PreprocessorBinOp::Modulo => a.checked_rem(b),
        PreprocessorBinOp::Equals => Some(if a == b { 1 } else { 0 }),
        PreprocessorBinOp::NotEquals => Some(if a != b { 1 } else { 0 }),
        PreprocessorBinOp::LogicalOr => Some(if a != 0 || b != 0 { 1 } else { 0 }),
        PreprocessorBinOp::LogicalAnd => Some(if a != 0 && b != 0 { 1 } else { 0 }),
        PreprocessorBinOp::LessThan => Some(if a < b { 1 } else { 0 }),
        PreprocessorBinOp::LessOrEqual => Some(if a <= b { 1 } else { 0 }),
        PreprocessorBinOp::GreaterThan => Some(if a > b { 1 } else { 0 }),
        PreprocessorBinOp::GreaterOrEqual => Some(if a >= b { 1 } else { 0 }),
        PreprocessorBinOp::BitwiseShiftLeft => if 0 <= b && b < 64 {
            Some(a << (b as u32))
        } else {
            None
        },
        PreprocessorBinOp::BitwiseShiftRight => if 0 <= b && b < 64 {
            Some(b >> (b as u32))
        } else {
            None
        },
    }
}

fn contains_name(v: &Vec<String>, name: &String) -> (r: bool)
    ensures
        r == v@.map_values(|s: String| s@).contains(name@),
{
    let ghost m = v@.map_values(|s: String| s@);
    let mut i: usize = 0;
    while i < v.len()
        invariant
            i <= v.len(),
            m == v@.map_values(|s: String| s@),
            forall|j: int| 0 <= j < i ==> m[j] != name@,
        decreases v.len() - i,
    {
        if v[i] == *name {
            assert(m[i as int] == name@);
            return true;
        }
        i = i + 1;
    }
    false
}

/// Evaluates `e` (see [`spec_eval`]); `expanding` holds the macros being expanded.
fn eval(defs: &Definitions, e: &PreprocessorExpression, expanding: &mut Vec<String>, fuel: usize) -> (r: Option<Option<i64>>)
    ensures
        r == spec_eval(defs@, e@, old(expanding)@.map_values(|s: String| s@), fuel as nat),
        final(expanding)@.map_values(|s: String| s@) == old(expanding)@.map_values(|s: String| s@),
    decreases fuel, e,
{
    match e {
        PreprocessorExpression::IntLiteral(n) => Some(Some(*n)),
        PreprocessorExpression::Identifier(name) => {
            let text = match defs.get(name) {
                None => {
                    return Some(None);
                },
                Some(t) => t,
            };
            if contains_name(expanding, name) || fuel == 0 {
                return None;
            }
            let chars = chars_of(text.as_str());
            match parse_expression(&chars) {
                None => Some(None),
                Some((x, _)) => {
                    let ghost before = expanding@.map_values(|s: String| s@);
                    expanding.push(name.clone());
                    assert(expanding@.map_values(|s: String| s@) =~= before.push(name@));
                    let r = eval(defs, &x, expanding, fuel - 1);
                    let ghost mid = expanding@;
                    assert(mid.map_values(|s: String| s@) == before.push(name@));
                    expanding.pop();
                    assert(expanding@ =~= mid.drop_last());
                    assert(expanding@.map_values(|s: String| s@) =~= before) by {
                        assert forall|j: int| 0 <= j < before.len() implies expanding@.map_values(
                            |s: String| s@,
                        )[j] == before[j] by {
                            assert(mid.map_values(|s: String| s@)[j] == before.push(name@)[j]);
                        }
                    }
                    r
                },
            }
        },
        PreprocessorExpression::BinOp(op, l, r) => {
            let a = match eval(defs, l, expanding, fuel) {
                None => {
                    return None;
                },
                Some(None) => {
                    return Some(None);
                },
                Some(Some(a)) => a,
            };
            let b = match eval(defs, r, expanding, fuel) {
                None => {
                    return None;
                },
                Some(None) => {
                    return Some(None);
                },
                Some(Some(b)) => b,
            };
            match apply(*op, a, b) {
                None => None,
                Some(v) => Some(Some(v)),
            }
        },
        PreprocessorExpression::Not(x) => match eval(defs, x, expanding, fuel) {
            None => None,
            Some(v) => Some(
                Some(
                    if truthy(v) {
                        0
                    } else {
                        1
                    },
                ),
            ),
        },
        PreprocessorExpression::Defined(name) => Some(
            Some(
                if defs.contains_key(name) {
                    1
                } else {
                    0
                },
            ),
        ),
    }
}

fn truthy(v: Option<i64>) -> (r: bool)
    ensures
        r == spec_truthy(v),
{
    match v {
        Some(n) => n != 0,
        None => false,
    }
}

/// The value of `cond` under `defs` (see [`spec_value`]); the outer `None` is a fault.
pub fn interpret_pp_expr(defs: &Definitions, cond: &PreprocessorExpression) -> (r: Option<Option<i64>>)
    ensures
        r == spec_value(defs@, cond@),
{
    let mut expanding: Vec<String> = Vec::new();
    assert(expanding@.map_values(|s: String| s@) =~= Seq::<Seq<char>>::empty());
    eval(defs, cond, &mut expanding, defs.len())
}

/// `cond` read as a condition (see [`spec_condition`]); `None` is a fault.
pub fn interpret_condition(defs: &Definitions, cond: &PreprocessorExpression) -> (r: Option<bool>)
    ensures
        r == spec_condition(defs@, cond@),
{
    match interpret_pp_expr(defs, cond) {
        None => None,
        Some(v) => Some(truthy(v)),
    }
}

/// The value of the condition `a op b` on two literals.
pub open spec fn literal_op_value(defs: SpecDefinitions, op: PreprocessorBinOp, a: i64, b: i64) -> Option<Option<i64>> {
    spec_value(defs, SpecExpr::BinOp(op, Box::new(SpecExpr::IntLiteral(a)), Box::new(SpecExpr::IntLiteral(b))))
}

proof fn lemma_literal_op(defs: SpecDefinitions, op: PreprocessorBinOp, a: i64, b: i64)
    ensures
        literal_op_value(defs, op, a, b) == match spec_apply(op, a, b) {
            None => None,
            Some(v) => Some(Some(v)),
        },
{
    let n = defs.len();
    assert(spec_eval(defs, SpecExpr::IntLiteral(a), seq![], n) == Some(Some(a)));
    assert(spec_eval(defs, SpecExpr::IntLiteral(b), seq![], n) == Some(Some(b)));
}

/// What a comparison or a logical operator of a condition gives for two numbers, whatever the
/// definitions: 1 where the relation holds and 0 where it does not.
pub proof fn lemma_comparisons(defs: SpecDefinitions, a: i64, b: i64)
    ensures
        literal_op_value(defs, PreprocessorBinOp::LessThan, a, b) == Some(Some(if a < b { 1i64 } else { 0i64 })),
        literal_op_value(defs, PreprocessorBinOp::LessOrEqual, a, b) == Some(Some(if a <= b { 1i64 } else { 0i64 })),
        literal_op_value(defs, PreprocessorBinOp::GreaterThan, a, b) == Some(Some(if a > b { 1i64 } else { 0i64 })),
        literal_op_value(defs, PreprocessorBinOp::GreaterOrEqual, a, b) == Some(
            Some(if a >= b { 1i64 } else { 0i64 }),
        ),
        literal_op_value(defs, PreprocessorBinOp::Equals, a, b) == Some(Some(if a == b { 1i64 } else { 0i64 })),
        literal_op_value(defs, PreprocessorBinOp::NotEquals, a, b) == Some(Some(if a != b { 1i64 } else { 0i64 })),
        literal_op_value(defs, PreprocessorBinOp::LogicalAnd, a, b) == Some(
            Some(if a != 0 && b != 0 { 1i64 } else { 0i64 }),
        ),
        literal_op_value(defs, PreprocessorBinOp::LogicalOr, a, b) == Some(
            Some(if a != 0 || b != 0 { 1i64 } else { 0i64 }),
        ),
        literal_op_value(defs, PreprocessorBinOp::LessThan, a, a) == Some(Some(0i64)),
        literal_op_value(defs, PreprocessorBinOp::GreaterThan, a, a) == Some(Some(0i64)),
        literal_op_value(defs, PreprocessorBinOp::LessOrEqual, a, a) == Some(Some(1i64)),
{
    lemma_literal_op(defs, PreprocessorBinOp::LessThan, a, b);
    lemma_literal_op(defs, PreprocessorBinOp::LessOrEqual, a, b);
    lemma_literal_op(defs, PreprocessorBinOp::GreaterThan, a, b);
    lemma_literal_op(defs, PreprocessorBinOp::GreaterOrEqual, a, b);
    lemma_literal_op(defs, PreprocessorBinOp::Equals, a, b);
    lemma_literal_op(defs, PreprocessorBinOp::NotEquals, a, b);
    lemma_literal_op(defs, PreprocessorBinOp::LogicalAnd, a, b);
    lemma_literal_op(defs, PreprocessorBinOp::LogicalOr, a, b);
    lemma_literal_op(defs, PreprocessorBinOp::LessThan, a, a);
    lemma_literal_op(defs, PreprocessorBinOp::GreaterThan, a, a);
    lemma_literal_op(defs, PreprocessorBinOp::LessOrEqual, a, a);
}

/// What an arithmetic or bitwise operator of a condition gives for two numbers, whatever the
/// definitions: the exact result where it is a 64-bit number, and a fault where it overflows.
pub proof fn lemma_arithmetic(defs: SpecDefinitions, a: i64, b: i64)
    ensures
        i64::MIN <= a + b <= i64::MAX ==> literal_op_value(defs, PreprocessorBinOp::Plus, a, b) == Some(
            Some((a + b) as i64),
        ),
        !(i64::MIN <= a + b <= i64::MAX) ==> literal_op_value(defs, PreprocessorBinOp::Plus, a, b) is None,
        i64::MIN <= a - b <= i64::MAX ==> literal_op_value(defs, PreprocessorBinOp::Minus, a, b) == Some(
            Some((a - b) as i64),
        ),
        !(i64::MIN <= a - b <= i64::MAX) ==> literal_op_value(defs, PreprocessorBinOp::Minus, a, b) is None,
        i64::MIN <= a * b <= i64::MAX ==> literal_op_value(defs, PreprocessorBinOp::Times, a, b) == Some(
            Some((a * b) as i64),
        ),
        !(i64::MIN <= a * b <= i64::MAX) ==> literal_op_value(defs, PreprocessorBinOp::Times, a, b) is None,
        0 <= a && 0 < b ==> literal_op_value(defs, PreprocessorBinOp::Divide, a, b) == Some(Some((a / b) as i64)),
        0 <= a && 0 < b ==> literal_op_value(defs, PreprocessorBinOp::Modulo, a, b) == Some(Some((a % b) as i64)),
        b == 0 ==> literal_op_value(defs, PreprocessorBinOp::Divide, a, b) is None,
        b == 0 ==> literal_op_value(defs, PreprocessorBinOp::Modulo, a, b) is None,
        literal_op_value(defs, PreprocessorBinOp::And, a, b) == Some(Some(a & b)),
        literal_op_value(defs, PreprocessorBinOp::Or, a, b) == Some(Some(a | b)),
        literal_op_value(defs, PreprocessorBinOp::Xor, a, b) == Some(Some(a ^ b)),
        0 <= b < 64 ==> literal_op_value(defs, PreprocessorBinOp::BitwiseShiftLeft, a, b) == Some(
            Some(a << (b as u32)),
        ),
        !(0 <= b < 64) ==> literal_op_value(defs, PreprocessorBinOp::BitwiseShiftLeft, a, b) is None,
{
    lemma_literal_op(defs, PreprocessorBinOp::Plus, a, b);
    lemma_literal_op(defs, PreprocessorBinOp::Minus, a, b);
    lemma_literal_op(defs, PreprocessorBinOp::Times, a, b);
    lemma_literal_op(defs, PreprocessorBinOp::Divide, a, b);
    lemma_literal_op(defs, PreprocessorBinOp::Modulo, a, b);
    if 0 <= a && 0 < b {
        let x = a as int;
        let d = b as int;
        assert(0 <= x % d < d) by (nonlinear_arith)
            requires
                0 <= x,
                0 < d,
        ;
    }
    lemma_literal_op(defs, PreprocessorBinOp::And, a, b);
    lemma_literal_op(defs, PreprocessorBinOp::Or, a, b);
    lemma_literal_op(defs, PreprocessorBinOp::Xor, a, b);
    lemma_literal_op(defs, PreprocessorBinOp::BitwiseShiftLeft, a, b);
}

} // verus!
