//! The canonical text of a value.

use crate::number::{decimal, push_decimal};
use crate::value::{Lval, Value};
use vstd::prelude::*;

verus! {

/// The text of `v`: a number in decimal, a symbol by its name, a failure as
/// `Error: ` and its message, a list as its children's texts between
/// parentheses, one space between neighbours.
pub open spec fn render(v: Value) -> Seq<char>
    decreases v, 0nat,
{
    match v {
        Value::Number(n) => decimal(n),
        Value::Symbol(name) => name,
        Value::Error(message) => "Error: "@ + message,
        Value::List(children) => seq!['('] + render_joined(children, children.len()) + seq![')'],
    }
}

/// The texts of the first `count` of `children`, one space between
/// neighbours.
pub open spec fn render_joined(children: Seq<Value>, count: nat) -> Seq<char>
    decreases children, count,
{
    if count == 0 || count > children.len() {
        Seq::<char>::empty()
    } else if count == 1 {
        render(children[0])
    } else {
        render_joined(children, (count - 1) as nat) + seq![' '] + render(children[count - 1])
    }
}

impl Lval {
    /// Appends the text of the value to `out`.
    pub fn render_into(&self, out: &mut String)
        ensures
            final(out)@ == old(out)@ + render(self@),
        decreases self,
    {
        match self {
            Lval::Number(n) => {
                push_decimal(out, *n);
            },
            Lval::Symbol(name) => {
                out.append(name.as_str());
            },
            Lval::Error(message) => {
                out.append("Error: ");
                out.append(message.as_str());
            },
            Lval::List(cells) => {
                let ghost children = self@->List_0;
                out.push('(');
                let mut i: usize = 0;
                while i < cells.len()
                    invariant
                        *self == Lval::List(*cells),
                        self@ == Value::List(children),
                        i <= cells.len(),
                        out@ == old(out)@ + seq!['('] + render_joined(children, i as nat),
                    decreases cells.len() - i,
                {
                    proof {
                        vstd::std_specs::vec::axiom_vec_index_decreases(*cells, i as int);
                    }
                    if i > 0 {
                        out.push(' ');
                    }
                    cells[i].render_into(out);
                    i += 1;
                    assert(out@ =~= old(out)@ + seq!['('] + render_joined(children, i as nat));
                }
                out.push(')');
            },
        }
    }

    /// The text of the value.
    pub fn render(&self) -> (r: String)
        ensures
            r@ == render(self@),
    {
        let mut out = String::new();
        self.render_into(&mut out);
        out
    }
}

} // verus!
