//! The parse tree that the grammar produces and the reader lowers.

use vstd::prelude::*;

verus! {

/// The rules of the grammar.
#[derive(Clone, Copy, Debug, PartialEq, Eq, Structural)]
pub enum Rule {
    /// A whole line: any number of expressions.
    Program,
    /// A number, a symbol or a list. The parser hands out the node of the
    /// alternative that matched, never a node of this rule.
    Expression,
    /// Any number of expressions between parentheses.
    List,
    /// An optional sign and one digit or more.
    Number,
    /// A run of symbol characters.
    Symbol,
}

/// Mathematical model of a parse tree.
pub struct Tree {
    pub rule: Rule,
    pub text: Seq<char>,
    pub children: Seq<Tree>,
}

/// A node of the parse tree: the rule that matched, the text of a number or
/// symbol, and the nodes of the expressions inside a program or list, in
/// source order.
#[derive(Debug, PartialEq, Eq)]
pub struct Node {
    pub rule: Rule,
    pub text: String,
    pub children: Vec<Node>,
}

impl View for Node {
    type V = Tree;

    open spec fn view(&self) -> Tree
        decreases self,
    {
        Tree { rule: self.rule, text: self.text@, children: trees(self.children@) }
    }
}

/// The models of `nodes`, in the same order.
pub open spec fn trees(nodes: Seq<Node>) -> Seq<Tree>
    decreases nodes,
{
    Seq::new(
        nodes.len(),
        |i: int|
            if 0 <= i < nodes.len() {
                nodes[i]@
            } else {
                Tree { rule: Rule::Program, text: Seq::empty(), children: Seq::empty() }
            },
    )
}

impl Node {
    /// A node without children: a number or a symbol with its text.
    pub fn leaf(rule: Rule, text: String) -> (r: Node)
        ensures
            r@ == (Tree { rule, text: text@, children: Seq::empty() }),
    {
        let r = Node { rule, text, children: Vec::new() };
        assert(r@.children =~= Seq::<Tree>::empty());
        r
    }

    /// A node without text: a program or a list with its children.
    pub fn branch(rule: Rule, children: Vec<Node>) -> (r: Node)
        ensures
            r@ == (Tree { rule, text: Seq::empty(), children: trees(children@) }),
    {
        Node { rule, text: String::new(), children }
    }
}

} // verus!
