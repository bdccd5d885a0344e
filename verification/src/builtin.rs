//! The built-in arithmetic operators and their application to operands.
//!
//! Arithmetic is checked: where the exact result of a step is no
//! representable number, the step fails with a failure of its own. Nothing
//! wraps around and nothing saturates.

use crate::number::representable;
use crate::value::{failure, Lval, Value};
use vstd::prelude::*;

verus! {

/// The built-in operators.
#[derive(Clone, Copy, Debug, PartialEq, Eq, Structural)]
pub enum Operator {
    Add,
    Sub,
    Mul,
    Div,
    Rem,
}

/// The operator that `name` spells: one of the characters `+ - * / %`,
/// alone. Any other text names no operator.
pub open spec fn operator_named(name: Seq<char>) -> Option<Operator> {
    if name.len() != 1 {
        None
    } else if name[0] == '+' {
        Some(Operator::Add)
    } else if name[0] == '-' {
        Some(Operator::Sub)
    } else if name[0] == '*' {
        Some(Operator::Mul)
    } else if name[0] == '/' {
        Some(Operator::Div)
    } else if name[0] == '%' {
        Some(Operator::Rem)
    } else {
        None
    }
}

/// The failure for an operand that is no number.
pub open spec fn non_number_failure() -> Value {
    Value::Error("Cannot operate on non-number!"@)
}

/// The failure for a zero divisor.
pub open spec fn zero_divisor_failure() -> Value {
    Value::Error("Division by zero!"@)
}

/// The failure for an operator that is not built in.
pub open spec fn unknown_operator_failure() -> Value {
    Value::Error("Invalid operator!"@)
}

/// The failure for a result that no number of the language can hold.
pub open spec fn overflow_failure() -> Value {
    Value::Error("Integer overflow!"@)
}

/// `v` as a number, or the overflow failure where it is not representable.
pub open spec fn number_or_overflow(v: int) -> Value {
    if representable(v) {
        Value::Number(v)
    } else {
        overflow_failure()
    }
}

/// Integer division of `x` by a non-zero `y`, rounded toward zero.
pub open spec fn quotient(x: int, y: int) -> int
    recommends
        y != 0,
{
    if x >= 0 {
        if y > 0 {
            x / y
        } else {
            -(x / (-y))
        }
    } else {
        if y > 0 {
            -((-x) / y)
        } else {
            (-x) / (-y)
        }
    }
}

/// What division rounded toward zero leaves over: `x == y * quotient + remainder`.
pub open spec fn remainder(x: int, y: int) -> int
    recommends
        y != 0,
{
    x - y * quotient(x, y)
}

/// One step of the fold: the value of `x op y`. A zero divisor, a result
/// out of range and an unknown operator each give their failure.
pub open spec fn combine(op: Option<Operator>, x: int, y: int) -> Value {
    match op {
        Some(Operator::Add) => number_or_overflow(x + y),
        Some(Operator::Sub) => number_or_overflow(x - y),
        Some(Operator::Mul) => number_or_overflow(x * y),
        Some(Operator::Div) => if y == 0 {
            zero_divisor_failure()
        } else {
            number_or_overflow(quotient(x, y))
        },
        Some(Operator::Rem) => if y == 0 {
            zero_divisor_failure()
        } else {
            number_or_overflow(remainder(x, y))
        },
        None => unknown_operator_failure(),
    }
}

/// Folds `rest` into the accumulator `acc` from the left. The first step
/// that fails ends the fold with its failure.
pub open spec fn fold(op: Option<Operator>, acc: int, rest: Seq<int>) -> Value
    decreases rest.len(),
{
    if rest.len() == 0 {
        Value::Number(acc)
    } else {
        match combine(op, acc, rest[0]) {
            Value::Number(next) => fold(op, next, rest.drop_first()),
            failure => failure,
        }
    }
}

/// Whether every operand is a number.
pub open spec fn all_numbers(operands: Seq<Value>) -> bool {
    forall|i: int| 0 <= i < operands.len() ==> operands[i] is Number
}

/// The integers that the operands hold.
pub open spec fn numbers(operands: Seq<Value>) -> Seq<int> {
    Seq::new(operands.len(), |i: int| operands[i]->Number_0)
}

/// The value of the operator named `op` applied to `operands`.
///
/// An operand that is no number makes the whole application fail before
/// any arithmetic. `-` with a single operand negates it. Otherwise the
/// operands are folded from the left, starting with the first.
pub open spec fn apply(op: Seq<char>, operands: Seq<Value>) -> Value
    recommends
        operands.len() >= 1,
{
    if !all_numbers(operands) {
        non_number_failure()
    } else if operator_named(op) == Some(Operator::Sub) && operands.len() == 1 {
        number_or_overflow(-numbers(operands)[0])
    } else {
        fold(operator_named(op), numbers(operands)[0], numbers(operands).drop_first())
    }
}

/// A fold ends in a number or in a failure.
pub proof fn lemma_fold_gives_number_or_failure(op: Option<Operator>, acc: int, rest: Seq<int>)
    ensures
        fold(op, acc, rest) is Number || fold(op, acc, rest) is Error,
    decreases rest.len(),
{
    if rest.len() > 0 {
        if let Value::Number(next) = combine(op, acc, rest[0]) {
            lemma_fold_gives_number_or_failure(op, next, rest.drop_first());
        }
    }
}

/// An application gives a number or a failure, never a symbol or a list.
pub proof fn lemma_apply_gives_number_or_failure(op: Seq<char>, operands: Seq<Value>)
    ensures
        apply(op, operands) is Number || apply(op, operands) is Error,
{
    lemma_fold_gives_number_or_failure(
        operator_named(op),
        numbers(operands)[0],
        numbers(operands).drop_first(),
    );
}

impl Operator {
    /// The operator that `name` spells, if any.
    pub fn named(name: &str) -> (r: Option<Operator>)
        ensures
            r == operator_named(name@),
    {
        let mut rest = name.chars();
        let first = rest.next();
        let second = rest.next();
        match (first, second) {
            (Some(c), None) => {
                if c == '+' {
                    Some(Operator::Add)
                } else if c == '-' {
                    Some(Operator::Sub)
                } else if c == '*' {
                    Some(Operator::Mul)
                } else if c == '/' {
                    Some(Operator::Div)
                } else if c == '%' {
                    Some(Operator::Rem)
                } else {
                    None
                }
            },
            _ => None,
        }
    }
}

/// The number or the overflow failure, for a checked result.
fn checked(result: Option<i128>) -> (r: Lval)
    ensures
        result matches Some(v) ==> r@ == Value::Number(v as int),
        result is None ==> r@ == overflow_failure(),
{
    match result {
        Some(v) => Lval::Number(v),
        None => failure("Integer overflow!"),
    }
}

/// `x / y` rounded toward zero, where it is representable.
fn divide(x: i128, y: i128) -> (r: Option<i128>)
    requires
        y != 0,
    ensures
        r == (if representable(quotient(x as int, y as int)) {
            Some(quotient(x as int, y as int) as i128)
        } else {
            None
        }),
{
    x.checked_div(y)
}

/// What `x / y` rounded toward zero leaves over.
fn modulo(x: i128, y: i128) -> (r: i128)
    requires
        y != 0,
    ensures
        r == remainder(x as int, y as int),
{
    if y == -1 {
        proof {
            lemma_remainder_by_unit(x as int);
        }
        0
    } else {
        proof {
            lemma_remainder_cases(x as int, y as int);
        }
        match x.checked_rem(y) {
            Some(r) => r,
            None => 0,
        }
    }
}

/// Dividing by minus one leaves nothing over.
proof fn lemma_remainder_by_unit(x: int)
    ensures
        remainder(x, -1) == 0,
{
}

/// The remainder by cases on the signs: that of the magnitudes, with the
/// sign of the dividend.
proof fn lemma_remainder_cases(x: int, y: int)
    requires
        y != 0,
    ensures
        x >= 0 && y > 0 ==> remainder(x, y) == x % y,
        x >= 0 && y < 0 ==> remainder(x, y) == x % (-y),
        x < 0 && y > 0 ==> remainder(x, y) == -((-x) % y),
        x < 0 && y < 0 ==> remainder(x, y) == -((-x) % (-y)),
{
    let a = if x >= 0 { x } else { -x };
    let b = if y > 0 { y } else { -y };
    vstd::arithmetic::div_mod::lemma_fundamental_div_mod(a, b);
    assert(y * (-(a / b)) == -(y * (a / b))) by (nonlinear_arith);
    assert((-b) * (a / b) == -(b * (a / b))) by (nonlinear_arith);
}

/// The integer that a number holds.
fn number_of(value: &Lval) -> (n: i128)
    requires
        value@ is Number,
    ensures
        value@ == Value::Number(n as int),
{
    match value {
        Lval::Number(n) => *n,
        _ => 0,
    }
}

impl Lval {
    /// Applies the operator named `op` to the children of `self`, the
    /// operands, and returns the result: a number, or the failure of the
    /// first thing that went wrong.
    pub fn builtin_op(&self, op: &String) -> (r: Lval)
        requires
            self@ matches Value::List(operands) && operands.len() >= 1,
        ensures
            r@ == apply(op@, self@->List_0),
    {
        match self {
            Lval::List(cells) => {
                let ghost operands = self@->List_0;
                let mut k: usize = 0;
                while k < cells.len()
                    invariant
                        k <= cells.len(),
                        self@ == Value::List(operands),
                        *self == Lval::List(*cells),
                        forall|j: int| 0 <= j < k ==> operands[j] is Number,
                    decreases cells.len() - k,
                {
                    assert(operands[k as int] == cells[k as int]@);
                    match &cells[k] {
                        Lval::Number(_) => {},
                        _ => {
                            return failure("Cannot operate on non-number!");
                        },
                    }
                    k += 1;
                }
                let operator = Operator::named(op.as_str());
                let first = number_of(&cells[0]);
                if cells.len() == 1 {
                    if let Some(Operator::Sub) = operator {
                        return checked(0i128.checked_sub(first));
                    }
                }
                let ghost rest = numbers(operands);
                let mut acc = first;
                let mut i: usize = 1;
                while i < cells.len()
                    invariant
                        1 <= i <= cells.len(),
                        self@ == Value::List(operands),
                        *self == Lval::List(*cells),
                        all_numbers(operands),
                        rest == numbers(operands),
                        rest[0] == first,
                        operands.len() == cells.len(),
                        operator == operator_named(op@),
                        fold(operator, first as int, rest.drop_first()) == fold(
                            operator,
                            acc as int,
                            rest.skip(i as int),
                        ),
                    decreases cells.len() - i,
                {
                    let y = number_of(&cells[i]);
                    proof {
                        assert(rest.skip(i as int).drop_first() =~= rest.skip(i + 1));
                    }
                    let next = match operator {
                        Some(Operator::Add) => checked(acc.checked_add(y)),
                        Some(Operator::Sub) => checked(acc.checked_sub(y)),
                        Some(Operator::Mul) => checked(acc.checked_mul(y)),
                        Some(Operator::Div) => {
                            if y == 0 {
                                failure("Division by zero!")
                            } else {
                                checked(divide(acc, y))
                            }
                        },
                        Some(Operator::Rem) => {
                            if y == 0 {
                                failure("Division by zero!")
                            } else {
                                Lval::Number(modulo(acc, y))
                            }
                        },
                        None => failure("Invalid operator!"),
                    };
                    match next {
                        Lval::Number(v) => {
                            acc = v;
                        },
                        other => {
                            return other;
                        },
                    }
                    i += 1;
                }
                Lval::Number(acc)
            },
            _ => Lval::Number(0),
        }
    }
}

} // verus!
