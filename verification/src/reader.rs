//! Lowering of a parse tree to a value.

use crate::number::{is_literal, literal_value, parse_literal, representable};
use crate::grammar::{is_expression, lemma_parse_gives_program, parse_program, MAX_DEPTH};
use crate::tree::{Node, Rule, Tree};
use crate::value::{failure, Lval, Value};
use vstd::prelude::*;

verus! {

/// The failure for a literal that spells no representable number.
pub open spec fn invalid_number_failure() -> Value {
    Value::Error("Invalid number!"@)
}

/// The failure for a node whose rule has no value.
pub open spec fn invalid_rule_failure() -> Value {
    Value::Error("Invalid rule!"@)
}

/// The value of a number token: the number that `text` spells, where it is
/// a literal and representable.
pub open spec fn read_number(text: Seq<char>) -> Value {
    if is_literal(text) && representable(literal_value(text)) {
        Value::Number(literal_value(text))
    } else {
        invalid_number_failure()
    }
}

/// The value that the tree `t` stands for. A number token gives its
/// number, a symbol token the symbol of that name, a program or a list the
/// list of its children's values in source order. A node of any other rule
/// gives a failure.
pub open spec fn lower(t: Tree) -> Value
    decreases t,
{
    match t.rule {
        Rule::Number => read_number(t.text),
        Rule::Symbol => Value::Symbol(t.text),
        Rule::Program | Rule::List => Value::List(lower_each(t.children)),
        Rule::Expression => invalid_rule_failure(),
    }
}

/// The values of `children`, in the same order.
pub open spec fn lower_each(children: Seq<Tree>) -> Seq<Value>
    decreases children,
{
    Seq::new(
        children.len(),
        |i: int|
            if 0 <= i < children.len() {
                lower(children[i])
            } else {
                invalid_rule_failure()
            },
    )
}

/// Whether the only failures in `v` are numbers out of range.
pub open spec fn fails_on_range_only(v: Value) -> bool
    decreases v,
{
    match v {
        Value::Error(_) => v == invalid_number_failure(),
        Value::List(children) => forall|i: int|
            0 <= i < children.len() ==> fails_on_range_only(#[trigger] children[i]),
        _ => true,
    }
}

/// Reading an expression fails on nothing but a number out of range.
pub proof fn lemma_expression_reads(t: Tree, room: nat)
    requires
        is_expression(t, room),
    ensures
        fails_on_range_only(lower(t)),
        lower(t) is Error ==> t.rule == Rule::Number && !representable(literal_value(t.text)),
    decreases t,
{
    if t.rule == Rule::List {
        let values = lower_each(t.children);
        assert forall|i: int| 0 <= i < values.len() implies fails_on_range_only(
            #[trigger] values[i],
        ) by {
            lemma_expression_reads(t.children[i], (room - 1) as nat);
        }
    }
}

/// Reading what the parser hands out never fails but for the literal of a
/// number that is not representable: no node of it has a rule without a
/// value, and every number token is a literal.
pub proof fn lemma_parsed_line_reads(s: Seq<char>)
    ensures
        parse_program(s) matches Ok(tree) ==> lower(tree) is List && fails_on_range_only(
            lower(tree),
        ),
{
    lemma_parse_gives_program(s);
    if let Ok(tree) = parse_program(s) {
        let values = lower_each(tree.children);
        assert forall|i: int| 0 <= i < values.len() implies fails_on_range_only(
            #[trigger] values[i],
        ) by {
            lemma_expression_reads(tree.children[i], MAX_DEPTH as nat);
        }
    }
}

impl Lval {
    /// Reads the text of `node` as a number.
    pub fn read_num(node: &Node) -> (r: Lval)
        ensures
            r@ == read_number(node@.text),
    {
        match parse_literal(node.text.as_str()) {
            Some(n) => Lval::new_num(n),
            None => failure("Invalid number!"),
        }
    }

    /// Lowers the parse tree under `node` to a value.
    pub fn read(node: &Node) -> (r: Lval)
        ensures
            r@ == lower(node@),
        decreases node,
    {
        match node.rule {
            Rule::Number => Lval::read_num(node),
            Rule::Symbol => Lval::new_sym(node.text.clone()),
            Rule::Program | Rule::List => {
                let mut cells: Vec<Lval> = Vec::new();
                let mut i: usize = 0;
                while i < node.children.len()
                    invariant
                        i <= node.children.len(),
                        cells.len() == i,
                        forall|j: int| 0 <= j < i ==> cells[j]@ == lower(node@.children[j]),
                    decreases node.children.len() - i,
                {
                    proof {
                        vstd::std_specs::vec::axiom_vec_index_decreases(node.children, i as int);
                    }
                    cells.push(Lval::read(&node.children[i]));
                    i += 1;
                }
                let r = Lval::List(cells);
                assert(r@->List_0 =~= lower_each(node@.children));
                r
            },
            Rule::Expression => failure("Invalid rule!"),
        }
    }
}

} // verus!
