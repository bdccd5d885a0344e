//! The value type of the language and its mathematical model.

use vstd::prelude::*;

verus! {

/// Mathematical model of a value: what the contracts speak about.
pub enum Value {
    /// An integer.
    Number(int),
    /// An operator or identifier name.
    Symbol(Seq<char>),
    /// The message of a failure.
    Error(Seq<char>),
    /// An expression: its children, in order.
    List(Seq<Value>),
}

/// A value of the language: a number, a symbol, the message of a failure, or
/// an ordered list of values. A list owns its children; the other variants
/// have none.
#[derive(Debug, PartialEq, Eq)]
pub enum Lval {
    Number(i128),
    Symbol(String),
    Error(String),
    List(Vec<Lval>),
}

impl View for Lval {
    type V = Value;

    open spec fn view(&self) -> Value
        decreases self,
    {
        match self {
            Lval::Number(n) => Value::Number(*n as int),
            Lval::Symbol(name) => Value::Symbol(name@),
            Lval::Error(message) => Value::Error(message@),
            Lval::List(cells) => Value::List(views(cells@)),
        }
    }
}

/// The models of the values in `cells`, in the same order.
pub open spec fn views(cells: Seq<Lval>) -> Seq<Value>
    decreases cells,
{
    Seq::new(
        cells.len(),
        |i: int|
            if 0 <= i < cells.len() {
                cells[i]@
            } else {
                Value::List(Seq::empty())
            },
    )
}

impl Lval {
    /// The number `value`.
    pub fn new_num(value: i128) -> (r: Lval)
        ensures
            r@ == Value::Number(value as int),
    {
        Lval::Number(value)
    }

    /// The failure with message `err`.
    pub fn new_err(err: String) -> (r: Lval)
        ensures
            r@ == Value::Error(err@),
    {
        Lval::Error(err)
    }

    /// The symbol named `sym`.
    pub fn new_sym(sym: String) -> (r: Lval)
        ensures
            r@ == Value::Symbol(sym@),
    {
        Lval::Symbol(sym)
    }

    /// The empty list.
    pub fn new_sexpr() -> (r: Lval)
        ensures
            r@ == Value::List(Seq::<Value>::empty()),
    {
        let r = Lval::List(Vec::new());
        assert(r@->List_0 =~= Seq::<Value>::empty());
        r
    }

    /// Appends `value` as the last child of a list and hands the list back
    /// for further calls. Only a list has children: any other value is left
    /// as it is.
    pub fn add(&mut self, value: Lval) -> (r: &mut Lval)
        ensures
            old(self)@ matches Value::List(children) ==> r@ == Value::List(children.push(value@)),
            !(old(self)@ is List) ==> r@ == old(self)@,
            *final(self) == *final(r),
    {
        match self {
            Lval::List(cells) => {
                cells.push(value);
            },
            _ => {},
        }
        proof {
            if old(self)@ is List {
                assert(self@->List_0 =~= old(self)@->List_0.push(value@));
            }
        }
        self
    }

    /// Removes the child at `index` from a list and returns it; the children
    /// behind it move up by one.
    pub fn pop(&mut self, index: usize) -> (r: Lval)
        requires
            old(self)@ matches Value::List(children) && index < children.len(),
        ensures
            r@ == old(self)@->List_0[index as int],
            final(self)@ == Value::List(old(self)@->List_0.remove(index as int)),
    {
        match self {
            Lval::List(cells) => {
                let r = cells.remove(index);
                proof {
                    assert(self@->List_0 =~= old(self)@->List_0.remove(index as int));
                }
                r
            },
            _ => Lval::Number(0),
        }
    }
}

/// The failure with the given message.
pub fn failure(message: &str) -> (r: Lval)
    ensures
        r@ == Value::Error(message@),
{
    Lval::Error(String::from_str(message))
}

impl Clone for Lval {
    /// A deep copy: a value of its own with the same model.
    fn clone(&self) -> (r: Lval)
        ensures
            r@ == self@,
        decreases self,
    {
        match self {
            Lval::Number(n) => Lval::Number(*n),
            Lval::Symbol(name) => Lval::Symbol(name.clone()),
            Lval::Error(message) => Lval::Error(message.clone()),
            Lval::List(cells) => {
                let mut copies: Vec<Lval> = Vec::new();
                let mut i: usize = 0;
                while i < cells.len()
                    invariant
                        *self == Lval::List(*cells),
                        i <= cells.len(),
                        copies.len() == i,
                        forall|j: int| 0 <= j < i ==> copies[j]@ == cells[j]@,
                    decreases cells.len() - i,
                {
                    proof {
                        vstd::std_specs::vec::axiom_vec_index_decreases(*cells, i as int);
                        assert(decreases_to!(*self => self->List_0));
                    }
                    copies.push(cells[i].clone());
                    i += 1;
                }
                let r = Lval::List(copies);
                assert(r@->List_0 =~= self@->List_0);
                r
            },
        }
    }
}

} // verus!
