//! Writing a value and parsing its text gives the value back.

use crate::eval::{evaluate, evaluate_each, first_error};
use crate::grammar::{
    class_of, is_symbol_text, items_from, lemma_run_end, list_tree, parse_program, prefixed,
    program_tree, run_end, starts_number, token_end, token_tree, CharClass, Parsed, SyntaxError,
    MAX_DEPTH,
};
use crate::interpreter::response;
use crate::number::{
    decimal, digits_of, is_digit, lemma_decimal_reads_back, lemma_digits_of, representable,
};
use crate::reader::{lower, lower_each};
use crate::render::{render, render_joined};
use crate::tree::{Rule, Tree};
use crate::value::Value;
use vstd::prelude::*;

verus! {

/// Whether the text of `v` can be read back: its numbers are representable,
/// its symbols are symbol tokens, its lists nest at most `room` deep, and
/// it holds no failure.
pub open spec fn is_writable(v: Value, room: nat) -> bool
    decreases v,
{
    match v {
        Value::Number(n) => representable(n),
        Value::Symbol(name) => is_symbol_text(name),
        Value::Error(_) => false,
        Value::List(children) => room > 0 && forall|i: int|
            0 <= i < children.len() ==> is_writable(#[trigger] children[i], (room - 1) as nat),
    }
}

/// The parse tree of the text of `v`.
pub open spec fn tree_of(v: Value) -> Tree
    decreases v,
{
    match v {
        Value::Number(n) => Tree { rule: Rule::Number, text: decimal(n), children: Seq::empty() },
        Value::Symbol(name) => Tree { rule: Rule::Symbol, text: name, children: Seq::empty() },
        Value::Error(_) => Tree { rule: Rule::Expression, text: Seq::empty(), children: Seq::empty() },
        Value::List(children) => list_tree(tree_of_each(children)),
    }
}

/// The parse trees of the texts of `children`, in the same order.
pub open spec fn tree_of_each(children: Seq<Value>) -> Seq<Tree>
    decreases children,
{
    Seq::new(
        children.len(),
        |i: int|
            if 0 <= i < children.len() {
                tree_of(children[i])
            } else {
                list_tree(Seq::empty())
            },
    )
}

/// Whether a token that ends at `at` ends there for good: the text ends, or
/// a blank or a `)` follows.
pub open spec fn delimited(s: Seq<char>, at: int) -> bool {
    at >= s.len() || class_of(s[at]) == CharClass::Blank || class_of(s[at]) == CharClass::Close
}

/// Whether `text` stands in `s` from `from` on.
pub open spec fn stands_at(s: Seq<char>, from: int, text: Seq<char>) -> bool {
    0 <= from && from + text.len() <= s.len() && s.subrange(from, from + text.len()) == text
}

/// A run whose characters all have the class, and behind which another
/// class or the end of the text follows, ends there.
proof fn lemma_run_ends_at(s: Seq<char>, from: int, end: int, class: CharClass)
    requires
        0 <= from <= end <= s.len(),
        forall|i: int| from <= i < end ==> class_of(#[trigger] s[i]) == class,
        end < s.len() ==> class_of(s[end]) != class,
    ensures
        run_end(s, from, class) == end,
    decreases end - from,
{
    if from < end {
        lemma_run_ends_at(s, from + 1, end, class);
    }
}

/// Blanks in front of expressions change nothing.
proof fn lemma_skip_blanks(s: Seq<char>, from: int, depth: nat)
    requires
        0 <= from <= s.len(),
    ensures
        items_from(s, from, depth) == items_from(s, run_end(s, from, CharClass::Blank), depth),
{
    lemma_run_end(s, from, CharClass::Blank);
}

/// Reading the parse tree of a writable value's text gives the value.
pub proof fn lemma_tree_of_reads(v: Value, room: nat)
    requires
        is_writable(v, room),
    ensures
        lower(tree_of(v)) == v,
    decreases v,
{
    match v {
        Value::Number(n) => {
            lemma_decimal_reads_back(n);
        },
        Value::List(children) => {
            let values = lower_each(tree_of_each(children));
            assert forall|i: int| 0 <= i < children.len() implies values[i] == children[i] by {
                lemma_tree_of_reads(children[i], (room - 1) as nat);
            }
            assert(values =~= children);
        },
        _ => {},
    }
}

/// The text of a writable value is not empty and starts with no blank.
proof fn lemma_render_starts(v: Value, room: nat)
    requires
        is_writable(v, room),
    ensures
        render(v).len() > 0,
        class_of(render(v)[0]) != CharClass::Blank,
{
    match v {
        Value::Number(n) => {
            if n >= 0 {
                lemma_digits_of(n as nat);
                assert(is_digit(digits_of(n as nat)[0]));
            }
        },
        _ => {},
    }
}

/// The text of the first children of a list is the start of the text of
/// more of them.
proof fn lemma_joined_prefix(children: Seq<Value>, count: nat, more: nat)
    requires
        count <= more <= children.len(),
    ensures
        render_joined(children, count).len() <= render_joined(children, more).len(),
        render_joined(children, more).subrange(0, render_joined(children, count).len() as int)
            == render_joined(children, count),
    decreases more - count,
{
    let whole = render_joined(children, more);
    if count == more {
        assert(whole.subrange(0, whole.len() as int) =~= whole);
    } else {
        let less = render_joined(children, (more - 1) as nat);
        lemma_joined_prefix(children, count, (more - 1) as nat);
        let part = render_joined(children, count);
        if more == 1 {
            assert(part =~= Seq::<char>::empty());
            assert(whole.subrange(0, 0) =~= part);
        } else {
            assert(whole == less + seq![' '] + render(children[more - 1]));
            assert(whole.subrange(0, part.len() as int) =~= less.subrange(0, part.len() as int));
        }
    }
}

/// A number token is read where the decimal text of a number stands.
proof fn lemma_reads_number(s: Seq<char>, from: int, n: int)
    requires
        stands_at(s, from, decimal(n)),
        delimited(s, from + decimal(n).len()),
    ensures
        decimal(n).len() > 0,
        class_of(s[from]) == CharClass::Digit || class_of(s[from]) == CharClass::Symbol,
        token_end(s, from) == from + decimal(n).len(),
        token_tree(s, from, from + decimal(n).len()) == tree_of(Value::Number(n)),
{
    let text = decimal(n);
    let end = from + text.len();
    let magnitude = if n < 0 { (-n) as nat } else { n as nat };
    let digits = digits_of(magnitude);
    lemma_digits_of(magnitude);
    let start = if n < 0 { from + 1 } else { from };
    assert forall|i: int| start <= i < end implies class_of(#[trigger] s[i])
        == CharClass::Digit by {
        assert(s[i] == s.subrange(from, end)[i - from]);
        assert(text[i - from] == digits[i - start]);
        assert(is_digit(digits[i - start]));
    }
    assert(s[from] == s.subrange(from, end)[0]);
    assert(class_of(s[start]) == CharClass::Digit);
    assert(starts_number(s, from));
    lemma_run_ends_at(s, start + 1, end, CharClass::Digit);
}

/// A symbol token is read where a symbol's name stands.
proof fn lemma_reads_symbol(s: Seq<char>, from: int, name: Seq<char>)
    requires
        stands_at(s, from, name),
        is_symbol_text(name),
        delimited(s, from + name.len()),
    ensures
        class_of(s[from]) == CharClass::Symbol,
        token_end(s, from) == from + name.len(),
        token_tree(s, from, from + name.len()) == tree_of(Value::Symbol(name)),
{
    let end = from + name.len();
    assert forall|i: int| from <= i < end implies class_of(#[trigger] s[i])
        == CharClass::Symbol by {
        assert(s[i] == s.subrange(from, end)[i - from]);
    }
    assert(class_of(s[from]) == CharClass::Symbol);
    assert(!starts_number(s, from));
    lemma_run_ends_at(s, from + 1, end, CharClass::Symbol);
}

/// Where the text of a writable value stands, delimited, the parser reads
/// the tree of that value and goes on behind it.
proof fn lemma_reads_value(s: Seq<char>, from: int, depth: nat, v: Value)
    requires
        stands_at(s, from, render(v)),
        delimited(s, from + render(v).len()),
        depth <= MAX_DEPTH,
        is_writable(v, (MAX_DEPTH - depth) as nat),
    ensures
        items_from(s, from, depth) == prefixed(
            seq![tree_of(v)],
            items_from(s, from + render(v).len(), depth),
        ),
    decreases v, 0nat,
{
    let text = render(v);
    let end = from + text.len();
    lemma_render_starts(v, (MAX_DEPTH - depth) as nat);
    assert(s[from] == s.subrange(from, end)[0]);
    assert(run_end(s, from, CharClass::Blank) == from);
    match v {
        Value::Number(n) => {
            lemma_reads_number(s, from, n);
        },
        Value::Symbol(name) => {
            lemma_reads_symbol(s, from, name);
        },
        Value::Error(_) => {},
        Value::List(children) => {
            let inner = render_joined(children, children.len());
            let close = from + 1 + inner.len();
            assert(text.len() == inner.len() + 2);
            assert(s[from] == '(');
            assert(s[close] == s.subrange(from, end)[close - from]);
            assert(s[close] == ')');
            assert(stands_at(s, from + 1, inner)) by {
                assert(s.subrange(from + 1, from + 1 + inner.len()) =~= text.subrange(
                    1,
                    1 + inner.len() as int,
                ));
                assert(text.subrange(1, 1 + inner.len() as int) =~= inner);
            }
            lemma_reads_children(s, from + 1, depth + 1, children, 0);
            assert(render_joined(children, 0).len() == 0);
            assert(tree_of_each(children).subrange(0, children.len() as int) =~= tree_of_each(
                children,
            ));
        },
    }
}

/// Where the texts of the children of a list stand, one blank between
/// neighbours and a `)` behind the last, the parser reads, from behind the
/// first `done` of them, the trees of the others and stops at the `)`.
proof fn lemma_reads_children(
    s: Seq<char>,
    from: int,
    depth: nat,
    children: Seq<Value>,
    done: nat,
)
    requires
        done <= children.len(),
        stands_at(s, from, render_joined(children, children.len())),
        from + render_joined(children, children.len()).len() < s.len(),
        s[from + render_joined(children, children.len()).len()] == ')',
        0 < depth <= MAX_DEPTH,
        forall|i: int|
            0 <= i < children.len() ==> is_writable(
                #[trigger] children[i],
                (MAX_DEPTH - depth) as nat,
            ),
    ensures
        items_from(s, from + render_joined(children, done).len(), depth) == Ok::<
            (Seq<Tree>, int),
            SyntaxError,
        >(
            (
                tree_of_each(children).subrange(done as int, children.len() as int),
                from + render_joined(children, children.len()).len(),
            ),
        ),
    decreases children, children.len() - done,
{
    let count = children.len();
    let whole = render_joined(children, count);
    let close = from + whole.len();
    let at = from + render_joined(children, done).len();
    let trees = tree_of_each(children);
    if done == count {
        assert(run_end(s, close, CharClass::Blank) == close);
        assert(trees.subrange(done as int, count as int) =~= Seq::<Tree>::empty());
    } else {
        let child = children[done as int];
        let text = render(child);
        let next = render_joined(children, done + 1);
        lemma_joined_prefix(children, done + 1, count);
        lemma_render_starts(child, (MAX_DEPTH - depth) as nat);
        let start = if done == 0 { at } else { at + 1 };
        assert(next.len() == start - from + text.len());
        assert(next.subrange(start - from, next.len() as int) =~= text);
        assert(stands_at(s, start, text)) by {
            assert(s.subrange(start, start + text.len()) =~= s.subrange(
                from,
                from + whole.len(),
            ).subrange(start - from, start - from + text.len()));
            assert(whole.subrange(start - from, start - from + text.len()) =~= whole.subrange(
                0,
                next.len() as int,
            ).subrange(start - from, next.len() as int));
        }
        let end = start + text.len();
        assert(end == from + next.len());
        assert(delimited(s, end)) by {
            if done + 1 < count {
                let after = render_joined(children, done + 2);
                lemma_joined_prefix(children, done + 2, count);
                assert(after[next.len() as int] == ' ');
                assert(whole.subrange(0, after.len() as int)[next.len() as int] == whole[next.len() as int]);
                assert(s[end] == s.subrange(from, from + whole.len())[next.len() as int]);
            } else {
                assert(end == close);
            }
        }
        assert(run_end(s, at, CharClass::Blank) == start) by {
            assert(s[start] == s.subrange(start, start + text.len())[0]);
            if done > 0 {
                assert(next[at - from] == ' ');
                assert(whole.subrange(0, next.len() as int)[at - from] == whole[at - from]);
                assert(s[at] == s.subrange(from, from + whole.len())[at - from]);
                assert(run_end(s, start, CharClass::Blank) == start);
            }
        }
        lemma_skip_blanks(s, at, depth);
        lemma_reads_value(s, start, depth, child);
        lemma_reads_children(s, from, depth, children, done + 1);
        assert(seq![tree_of(child)] + trees.subrange(done as int + 1, count as int) =~= trees.subrange(
            done as int,
            count as int,
        ));
    }
}

/// The text of a writable value, alone on a line, parses to a program of
/// one expression, and that program reads as the list of that one value.
pub proof fn lemma_render_reads_back(v: Value)
    requires
        is_writable(v, MAX_DEPTH as nat),
    ensures
        parse_program(render(v)) == Ok::<Tree, SyntaxError>(program_tree(seq![tree_of(v)])),
        lower(program_tree(seq![tree_of(v)])) == Value::List(seq![v]),
{
    let s = render(v);
    let end = s.len() as int;
    assert(s.subrange(0, end) =~= s);
    lemma_reads_value(s, 0, 0, v);
    assert(run_end(s, end, CharClass::Blank) == end);
    assert(seq![tree_of(v)] + Seq::<Tree>::empty() =~= seq![tree_of(v)]);
    lemma_tree_of_reads(v, MAX_DEPTH as nat);
    assert(lower_each(seq![tree_of(v)]) =~= seq![v]);
}

/// The outcome of a line that is the text of a writable value is the text
/// of what that value reduces to.
pub proof fn lemma_rendered_line_evaluates(v: Value)
    requires
        is_writable(v, MAX_DEPTH as nat),
    ensures
        response(render(v)) == "Result: "@ + render(evaluate(v)),
{
    lemma_render_reads_back(v);
    assert(evaluate_each(seq![v]) =~= seq![evaluate(v)]);
    reveal_with_fuel(first_error, 2);
}

} // verus!
