//! Reduction of a value to its simplest form.

use crate::builtin::{apply, lemma_apply_gives_number_or_failure};
use crate::value::{failure, views, Lval, Value};
use vstd::prelude::*;

verus! {

/// The failure for a call whose head is no symbol.
pub open spec fn head_failure() -> Value {
    Value::Error("S-Expression does not start with symbol!"@)
}

/// The first failure among `values`, in order, if there is one.
pub open spec fn first_error(values: Seq<Value>) -> Option<Value>
    decreases values.len(),
{
    if values.len() == 0 {
        None
    } else if values[0] is Error {
        Some(values[0])
    } else {
        first_error(values.drop_first())
    }
}

/// What a list reduces to, given its children already reduced.
///
/// The first failure among them, if any. Otherwise the empty list stays the
/// empty list, a single child stands for the list, and a longer list is a
/// call: its head must be a symbol, which names the operator applied to the
/// children behind it.
pub open spec fn reduce(evaluated: Seq<Value>) -> Value {
    match first_error(evaluated) {
        Some(failure) => failure,
        None => if evaluated.len() == 0 {
            Value::List(evaluated)
        } else if evaluated.len() == 1 {
            evaluated[0]
        } else {
            match evaluated[0] {
                Value::Symbol(name) => apply(name, evaluated.drop_first()),
                _ => head_failure(),
            }
        },
    }
}

/// The value that `v` reduces to: a list reduces its children from left to
/// right and then itself; anything else is already reduced.
pub open spec fn evaluate(v: Value) -> Value
    decreases v,
{
    match v {
        Value::List(children) => reduce(evaluate_each(children)),
        _ => v,
    }
}

/// The children of a list, each reduced, in the same order.
pub open spec fn evaluate_each(children: Seq<Value>) -> Seq<Value>
    decreases children,
{
    Seq::new(
        children.len(),
        |i: int|
            if 0 <= i < children.len() {
                evaluate(children[i])
            } else {
                Value::List(children)
            },
    )
}

/// The first failure is the failure at the least index that holds one.
pub proof fn lemma_first_error_is_leftmost(values: Seq<Value>, k: int)
    requires
        0 <= k < values.len(),
        values[k] is Error,
        forall|j: int| 0 <= j < k ==> !(values[j] is Error),
    ensures
        first_error(values) == Some(values[k]),
    decreases k,
{
    if k > 0 {
        lemma_first_error_is_leftmost(values.drop_first(), k - 1);
    }
}

/// Where nothing failed there is no first failure, and a first failure is
/// one of the values.
pub proof fn lemma_first_error_is_member(values: Seq<Value>)
    ensures
        match first_error(values) {
            Some(failure) => failure is Error && values.contains(failure),
            None => forall|j: int| 0 <= j < values.len() ==> !(values[j] is Error),
        },
    decreases values.len(),
{
    if values.len() > 0 && !(values[0] is Error) {
        let rest = values.drop_first();
        lemma_first_error_is_member(rest);
        match first_error(rest) {
            Some(failure) => {
                let j = choose|j: int| 0 <= j < rest.len() && rest[j] == failure;
                assert(values[j + 1] == failure);
            },
            None => {
                assert forall|j: int| 0 <= j < values.len() implies !(values[j] is Error) by {
                    if j > 0 {
                        assert(rest[j - 1] == values[j]);
                    }
                }
            },
        }
    }
}

/// First failure wins: a list whose children, reduced from left to right,
/// fail first at child `k` reduces to the failure of that child, whatever
/// comes behind it.
pub proof fn lemma_first_failure_wins(children: Seq<Value>, k: int)
    requires
        0 <= k < children.len(),
        evaluate(children[k]) is Error,
        forall|j: int| 0 <= j < k ==> !(evaluate(children[j]) is Error),
    ensures
        evaluate(Value::List(children)) == evaluate(children[k]),
{
    lemma_first_error_is_leftmost(evaluate_each(children), k);
}

/// A number, a symbol and a failure are already reduced: each evaluates to
/// itself.
pub proof fn lemma_reduced_evaluates_to_itself(v: Value)
    requires
        !(v is List),
    ensures
        evaluate(v) == v,
{
}

/// Whether `v` is in simplest form: anything but a list with children.
pub open spec fn is_reduced(v: Value) -> bool {
    v matches Value::List(children) ==> children.len() == 0
}

/// Evaluation ends in simplest form.
pub proof fn lemma_evaluate_reduces(v: Value)
    ensures
        is_reduced(evaluate(v)),
    decreases v,
{
    if let Value::List(children) = v {
        let evaluated = evaluate_each(children);
        lemma_first_error_is_member(evaluated);
        if first_error(evaluated) is None {
            if evaluated.len() == 1 {
                lemma_evaluate_reduces(children[0]);
            } else if evaluated.len() > 1 {
                if let Value::Symbol(name) = evaluated[0] {
                    lemma_apply_gives_number_or_failure(name, evaluated.drop_first());
                }
            }
        }
    }
}

/// Evaluating twice gives what evaluating once gives.
pub proof fn lemma_evaluate_idempotent(v: Value)
    ensures
        evaluate(evaluate(v)) == evaluate(v),
{
    lemma_evaluate_reduces(v);
    let once = evaluate(v);
    if let Value::List(children) = once {
        assert(evaluate_each(children) =~= children);
    }
}

/// Where the first failure among `values` stands, if there is one.
fn first_error_at(values: &Vec<Lval>) -> (r: Option<usize>)
    ensures
        match r {
            Some(k) => k < values.len() && first_error(views(values@)) == Some(values[k as int]@),
            None => first_error(views(values@)) is None,
        },
{
    let ghost all = views(values@);
    assert(all.skip(0) =~= all);
    let mut k: usize = 0;
    while k < values.len()
        invariant
            k <= values.len(),
            all == views(values@),
            first_error(all) == first_error(all.skip(k as int)),
        decreases values.len() - k,
    {
        proof {
            assert(all.skip(k as int).drop_first() =~= all.skip(k + 1));
        }
        match &values[k] {
            Lval::Error(_) => {
                return Some(k);
            },
            _ => {},
        }
        k += 1;
    }
    None
}

impl Lval {
    /// Reduces the value: a list by `eval_sexpr`, anything else to itself.
    /// The value itself is left as it was.
    pub fn eval(&self) -> (r: Lval)
        ensures
            r@ == evaluate(self@),
        decreases self, 1int,
    {
        match self {
            Lval::List(_) => self.eval_sexpr(),
            _ => self.clone(),
        }
    }

    /// Reduces a list: its children from left to right, then the list
    /// itself from their results. A value that is no list has no children
    /// and reduces to itself.
    pub fn eval_sexpr(&self) -> (r: Lval)
        ensures
            r@ == evaluate(self@),
        decreases self, 0int,
    {
        match self {
            Lval::List(cells) => {
                let ghost children = self@->List_0;
                let mut evaluated: Vec<Lval> = Vec::new();
                let mut i: usize = 0;
                while i < cells.len()
                    invariant
                        *self == Lval::List(*cells),
                        self@ == Value::List(children),
                        i <= cells.len(),
                        evaluated.len() == i,
                        forall|j: int| 0 <= j < i ==> evaluated[j]@ == evaluate(children[j]),
                    decreases cells.len() - i,
                {
                    proof {
                        vstd::std_specs::vec::axiom_vec_index_decreases(*cells, i as int);
                    }
                    evaluated.push(cells[i].eval());
                    i += 1;
                }
                assert(views(evaluated@) =~= evaluate_each(children));
                match first_error_at(&evaluated) {
                    Some(k) => {
                        return evaluated.swap_remove(k);
                    },
                    None => {},
                }
                if evaluated.len() == 0 {
                    return Lval::List(evaluated);
                }
                if evaluated.len() == 1 {
                    return evaluated.remove(0);
                }
                let ghost before = views(evaluated@);
                let head = evaluated.remove(0);
                match head {
                    Lval::Symbol(name) => {
                        let operands = Lval::List(evaluated);
                        assert(operands@->List_0 =~= before.drop_first());
                        operands.builtin_op(&name)
                    },
                    _ => failure("S-Expression does not start with symbol!"),
                }
            },
            _ => self.clone(),
        }
    }
}

} // verus!
