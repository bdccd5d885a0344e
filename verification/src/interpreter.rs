//! The whole pipeline: from a line of text to the text of its outcome.

use crate::eval::{evaluate, evaluate_each, first_error};
use crate::grammar::{
    diagnostic, items_from, parse, parse_program, program_tree, run_end, starts_number,
    token_end, token_tree, CharClass, SyntaxError,
};
use crate::number::{
    decimal, is_digit, is_literal, is_sign, lemma_decimal_reads_back, literal_digits,
    literal_value, representable,
};
use crate::reader::{lower, lower_each};
use crate::render::render;
use crate::tree::{Rule, Tree};
use crate::value::{Lval, Value};
use vstd::prelude::*;

verus! {

/// The outcome of the line `line` as text: the report of its syntax error,
/// or the text of the value that it reduces to.
pub open spec fn response(line: Seq<char>) -> Seq<char> {
    match parse_program(line) {
        Err(e) => "error: "@ + diagnostic(e),
        Ok(tree) => "Result: "@ + render(evaluate(lower(tree))),
    }
}

/// Parses, reads, reduces and renders one line. Nothing is kept from one
/// call to the next.
pub fn interpret(line: &str) -> (out: String)
    ensures
        out@ == response(line@),
{
    match parse(line) {
        Err(e) => {
            let mut out = String::from_str("error: ");
            out.append(e.message().as_str());
            out
        },
        Ok(node) => {
            let value = Lval::read(&node);
            let result = value.eval();
            let mut out = String::from_str("Result: ");
            result.render_into(&mut out);
            out
        },
    }
}

/// Where every character from `from` on is a digit, the run of digits
/// from `from` ends with the text.
proof fn lemma_digits_run_to_end(s: Seq<char>, from: int)
    requires
        0 <= from <= s.len(),
        forall|i: int| from <= i < s.len() ==> is_digit(#[trigger] s[i]),
    ensures
        run_end(s, from, CharClass::Digit) == s.len(),
    decreases s.len() - from,
{
    if from < s.len() {
        lemma_digits_run_to_end(s, from + 1);
    }
}

/// A line that is one integer literal, and nothing else, parses to a
/// program of that one number token.
pub proof fn lemma_literal_parses(text: Seq<char>)
    requires
        is_literal(text),
    ensures
        parse_program(text) == Ok::<Tree, SyntaxError>(
            program_tree(seq![Tree { rule: Rule::Number, text, children: Seq::empty() }]),
        ),
{
    let digits = literal_digits(text);
    let signed = is_sign(text[0]);
    let start = if signed { 1int } else { 0int };
    assert forall|i: int| start <= i < text.len() implies is_digit(#[trigger] text[i]) by {
        assert(digits[i - start] == text[i]);
    }
    lemma_digits_run_to_end(text, start + 1);
    assert(text.subrange(0, text.len() as int) =~= text);
    let end = text.len() as int;
    assert(items_from(text, end, 0) == Ok::<(Seq<Tree>, int), SyntaxError>((Seq::empty(), end)));
}

/// Evaluating a bare literal gives its number: a line that is one integer
/// literal with a representable value parses, and its program reduces to
/// that number.
pub proof fn lemma_literal_evaluates_to_its_number(text: Seq<char>)
    requires
        is_literal(text),
        representable(literal_value(text)),
    ensures
        parse_program(text) matches Ok(tree) && evaluate(lower(tree)) == Value::Number(
            literal_value(text),
        ),
        response(text) == "Result: "@ + decimal(literal_value(text)),
{
    lemma_literal_parses(text);
    let token = Tree { rule: Rule::Number, text, children: Seq::empty() };
    let number = Value::Number(literal_value(text));
    assert(lower_each(seq![token]) =~= seq![number]);
    assert(evaluate_each(seq![number]) =~= seq![number]);
    assert(first_error(seq![number]) is None) by {
        reveal_with_fuel(first_error, 2);
    }
}

/// The text of a number is a line whose outcome is that text again.
pub proof fn lemma_number_round_trip(n: int)
    requires
        representable(n),
    ensures
        response(decimal(n)) == "Result: "@ + decimal(n),
{
    lemma_decimal_reads_back(n);
    lemma_literal_evaluates_to_its_number(decimal(n));
}

} // verus!
