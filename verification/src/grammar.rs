//! The grammar of a line and its parser.
//!
//! ```text
//! program    := expression*
//! expression := number | symbol | list
//! list       := '(' expression* ')'
//! number     := ('+' | '-')? digit+
//! symbol     := symbol-character+
//! ```
//!
//! A symbol character is any character but a digit, a parenthesis and a
//! blank. Blanks separate tokens and mean nothing else. A token is as long
//! as it can be, and where a number can start, a number is read. Lists nest
//! at most `MAX_DEPTH` deep.

use crate::number::{decimal, is_digit, is_literal, is_sign, literal_digits, push_decimal};
use crate::text::{chars_of, text_of};
use crate::tree::{trees, Node, Rule, Tree};
use vstd::prelude::*;

verus! {

/// Deepest nesting of lists that the grammar admits.
pub const MAX_DEPTH: usize = 128;

/// The classes of characters that the grammar tells apart.
#[derive(Clone, Copy, Debug, PartialEq, Eq, Structural)]
pub enum CharClass {
    /// Space, tab, line feed, carriage return.
    Blank,
    /// `0` to `9`.
    Digit,
    /// `(`.
    Open,
    /// `)`.
    Close,
    /// Everything else.
    Symbol,
}

/// The class of the character `c`.
pub open spec fn class_of(c: char) -> CharClass {
    if c == ' ' || c == '\t' || c == '\n' || c == '\r' {
        CharClass::Blank
    } else if '0' <= c <= '9' {
        CharClass::Digit
    } else if c == '(' {
        CharClass::Open
    } else if c == ')' {
        CharClass::Close
    } else {
        CharClass::Symbol
    }
}

/// Where the run of characters of class `class` that starts at `from`
/// ends: the first position at or behind `from` that holds a character of
/// another class, or the end of `s`.
pub open spec fn run_end(s: Seq<char>, from: int, class: CharClass) -> int
    decreases s.len() - from,
{
    if 0 <= from < s.len() && class_of(s[from]) == class {
        run_end(s, from + 1, class)
    } else {
        from
    }
}

/// Whether a number starts at `at`: a digit, or a sign with a digit behind
/// it.
pub open spec fn starts_number(s: Seq<char>, at: int) -> bool {
    0 <= at < s.len() && (class_of(s[at]) == CharClass::Digit || (is_sign(s[at]) && at + 1
        < s.len() && class_of(s[at + 1]) == CharClass::Digit))
}

/// Where the token that starts at `at` ends. A number runs through its
/// digits, a symbol through its symbol characters.
pub open spec fn token_end(s: Seq<char>, at: int) -> int {
    if starts_number(s, at) {
        run_end(s, if is_sign(s[at]) { at + 2 } else { at + 1 }, CharClass::Digit)
    } else {
        run_end(s, at + 1, CharClass::Symbol)
    }
}

/// The rule of the token that starts at `at`.
pub open spec fn token_rule(s: Seq<char>, at: int) -> Rule {
    if starts_number(s, at) {
        Rule::Number
    } else {
        Rule::Symbol
    }
}

/// The node of the token that spans `s` from `at` up to `end`.
pub open spec fn token_tree(s: Seq<char>, at: int, end: int) -> Tree {
    Tree { rule: token_rule(s, at), text: s.subrange(at, end), children: Seq::empty() }
}

/// The node of a list with the given children.
pub open spec fn list_tree(children: Seq<Tree>) -> Tree {
    Tree { rule: Rule::List, text: Seq::empty(), children }
}

/// The node of a program with the given children.
pub open spec fn program_tree(children: Seq<Tree>) -> Tree {
    Tree { rule: Rule::Program, text: Seq::empty(), children }
}

/// What the parser found wrong.
#[derive(Clone, Copy, Debug, PartialEq, Eq, Structural)]
pub enum ParseErrorKind {
    /// A `)` outside any list, where an expression or the end of the line
    /// was expected.
    UnexpectedClose,
    /// The end of the line inside a list, where an expression or `)` was
    /// expected.
    UnexpectedEnd,
    /// A `(` inside `MAX_DEPTH` lists, where a number, a symbol or `)` was
    /// expected.
    TooDeep,
}

/// A syntax error: where in the line, counted in characters from zero, and
/// what was wrong there.
#[derive(Clone, Copy, Debug, PartialEq, Eq, Structural)]
pub struct ParseError {
    pub position: usize,
    pub kind: ParseErrorKind,
}

/// Mathematical model of a syntax error.
pub struct SyntaxError {
    pub position: int,
    pub kind: ParseErrorKind,
}

impl View for ParseError {
    type V = SyntaxError;

    open spec fn view(&self) -> SyntaxError {
        SyntaxError { position: self.position as int, kind: self.kind }
    }
}

/// Expressions and the position behind them, or the syntax error that
/// stopped the parser.
pub type Parsed = Result<(Seq<Tree>, int), SyntaxError>;

/// The outcome `rest` with the nodes `first` in front of its nodes.
pub open spec fn prefixed(first: Seq<Tree>, rest: Parsed) -> Parsed {
    match rest {
        Ok((items, end)) => Ok((first + items, end)),
        Err(e) => Err(e),
    }
}

/// `expression*` from position `from`, inside `depth` lists: the nodes of
/// the expressions up to the first `)` that closes none of them, or up to
/// the end of `s`, and the position reached.
///
/// The tests that a position lies behind the one before it and inside `s`
/// never fail for a `from` inside `s` (`lemma_run_end`, `lemma_token_end`,
/// `lemma_items_end`); they show that the definition terminates. So a
/// list fails to close only where the line ends.
pub open spec fn items_from(s: Seq<char>, from: int, depth: nat) -> Parsed
    decreases s.len() - from,
{
    let at = run_end(s, from, CharClass::Blank);
    if !(from <= at < s.len()) {
        Ok((Seq::empty(), at))
    } else {
        match class_of(s[at]) {
            CharClass::Close => Ok((Seq::empty(), at)),
            CharClass::Open => if depth >= MAX_DEPTH {
                Err(SyntaxError { position: at, kind: ParseErrorKind::TooDeep })
            } else {
                match items_from(s, at + 1, depth + 1) {
                    Err(e) => Err(e),
                    Ok((children, close)) => if !(at < close < s.len()) {
                        Err(
                            SyntaxError {
                                position: s.len() as int,
                                kind: ParseErrorKind::UnexpectedEnd,
                            },
                        )
                    } else {
                        prefixed(seq![list_tree(children)], items_from(s, close + 1, depth))
                    },
                }
            },
            _ => {
                let end = token_end(s, at);
                if !(at < end <= s.len()) {
                    Ok((Seq::empty(), at))
                } else {
                    prefixed(seq![token_tree(s, at, end)], items_from(s, end, depth))
                }
            },
        }
    }
}

/// The parse tree of the line `s`: the program node over its expressions,
/// or the first syntax error.
pub open spec fn parse_program(s: Seq<char>) -> Result<Tree, SyntaxError> {
    match items_from(s, 0, 0) {
        Err(e) => Err(e),
        Ok((items, end)) => if end < s.len() {
            Err(SyntaxError { position: end, kind: ParseErrorKind::UnexpectedClose })
        } else {
            Ok(program_tree(items))
        },
    }
}

/// A run ends at or behind its start and inside the text; every character
/// in it has the run's class and the character behind it has not.
pub proof fn lemma_run_end(s: Seq<char>, from: int, class: CharClass)
    requires
        0 <= from <= s.len(),
    ensures
        from <= run_end(s, from, class) <= s.len(),
        forall|i: int| from <= i < run_end(s, from, class) ==> class_of(#[trigger] s[i]) == class,
        run_end(s, from, class) < s.len() ==> class_of(s[run_end(s, from, class)]) != class,
    decreases s.len() - from,
{
    if from < s.len() && class_of(s[from]) == class {
        lemma_run_end(s, from + 1, class);
    }
}

/// A token that starts inside the text is not empty and ends inside it.
pub proof fn lemma_token_end(s: Seq<char>, at: int)
    requires
        0 <= at < s.len(),
    ensures
        at < token_end(s, at) <= s.len(),
{
    if starts_number(s, at) {
        lemma_run_end(s, if is_sign(s[at]) { at + 2 } else { at + 1 }, CharClass::Digit);
    } else {
        lemma_run_end(s, at + 1, CharClass::Symbol);
    }
}

/// Expressions end at or behind their start, and no further than the end of
/// the text; where text is left, a `)` stands there.
pub proof fn lemma_items_end(s: Seq<char>, from: int, depth: nat)
    requires
        0 <= from <= s.len(),
    ensures
        items_from(s, from, depth) matches Ok((_, end)) ==> from <= end <= s.len() && (end
            < s.len() ==> class_of(s[end]) == CharClass::Close),
    decreases s.len() - from,
{
    let at = run_end(s, from, CharClass::Blank);
    lemma_run_end(s, from, CharClass::Blank);
    if at < s.len() {
        match class_of(s[at]) {
            CharClass::Close => {},
            CharClass::Open => {
                if depth < MAX_DEPTH {
                    lemma_items_end(s, at + 1, depth + 1);
                    if let Ok((children, close)) = items_from(s, at + 1, depth + 1) {
                        if close < s.len() {
                            lemma_items_end(s, close + 1, depth);
                        }
                    }
                }
            },
            _ => {
                lemma_token_end(s, at);
                lemma_items_end(s, token_end(s, at), depth);
            },
        }
    }
}

/// Whether `text` is a symbol token: one symbol character or more.
pub open spec fn is_symbol_text(text: Seq<char>) -> bool {
    text.len() > 0 && forall|i: int|
        0 <= i < text.len() ==> class_of(#[trigger] text[i]) == CharClass::Symbol
}

/// Whether `t` is the tree of an expression with lists nested at most
/// `room` deep: a number token that is a literal, a symbol token, or a list
/// of such expressions with one level less of room.
pub open spec fn is_expression(t: Tree, room: nat) -> bool
    decreases t,
{
    match t.rule {
        Rule::Number => is_literal(t.text) && t.children.len() == 0,
        Rule::Symbol => is_symbol_text(t.text) && t.children.len() == 0,
        Rule::List => room > 0 && t.text.len() == 0 && forall|i: int|
            0 <= i < t.children.len() ==> is_expression(#[trigger] t.children[i], (room - 1) as nat),
        Rule::Program | Rule::Expression => false,
    }
}

/// Whether `t` is the tree of a program: a program node over expressions
/// with lists nested at most `MAX_DEPTH` deep.
pub open spec fn is_program(t: Tree) -> bool {
    t.rule == Rule::Program && t.text.len() == 0 && forall|i: int|
        0 <= i < t.children.len() ==> is_expression(#[trigger] t.children[i], MAX_DEPTH as nat)
}

/// A token is a number that is a literal, or a symbol.
proof fn lemma_token_is_expression(s: Seq<char>, at: int, room: nat)
    requires
        0 <= at < s.len(),
        class_of(s[at]) == CharClass::Digit || class_of(s[at]) == CharClass::Symbol,
    ensures
        is_expression(token_tree(s, at, token_end(s, at)), room),
{
    let end = token_end(s, at);
    let text = s.subrange(at, end);
    lemma_token_end(s, at);
    if starts_number(s, at) {
        let start = if is_sign(s[at]) { at + 2 } else { at + 1 };
        lemma_run_end(s, start, CharClass::Digit);
        let digits = literal_digits(text);
    } else {
        lemma_run_end(s, at + 1, CharClass::Symbol);
    }
}

/// What the parser takes for expressions are expressions, nested no deeper
/// than the room that was left.
pub proof fn lemma_items_are_expressions(s: Seq<char>, from: int, depth: nat)
    requires
        0 <= from <= s.len(),
        depth <= MAX_DEPTH,
    ensures
        items_from(s, from, depth) matches Ok((items, _)) ==> forall|i: int|
            0 <= i < items.len() ==> is_expression(
                #[trigger] items[i],
                (MAX_DEPTH - depth) as nat,
            ),
    decreases s.len() - from,
{
    let room = (MAX_DEPTH - depth) as nat;
    let at = run_end(s, from, CharClass::Blank);
    lemma_run_end(s, from, CharClass::Blank);
    if at < s.len() {
        match class_of(s[at]) {
            CharClass::Close => {},
            CharClass::Open => {
                if depth < MAX_DEPTH {
                    lemma_items_are_expressions(s, at + 1, depth + 1);
                    if let Ok((children, close)) = items_from(s, at + 1, depth + 1) {
                        if at < close < s.len() {
                            lemma_items_are_expressions(s, close + 1, depth);
                        }
                    }
                }
            },
            _ => {
                lemma_token_end(s, at);
                lemma_token_is_expression(s, at, room);
                lemma_items_are_expressions(s, token_end(s, at), depth);
            },
        }
    }
}

/// Every tree that the grammar gives a line is the tree of a program: the
/// parser hands out number tokens that are literals, symbol tokens and
/// lists, nested at most `MAX_DEPTH` deep, and nothing else.
pub proof fn lemma_parse_gives_program(s: Seq<char>)
    ensures
        parse_program(s) matches Ok(tree) ==> is_program(tree),
{
    lemma_items_are_expressions(s, 0, 0);
}

/// Putting nodes in front of an outcome twice is putting both runs in
/// front of it once.
proof fn lemma_prefixed_twice(first: Seq<Tree>, second: Seq<Tree>, rest: Parsed)
    ensures
        prefixed(first, prefixed(second, rest)) == prefixed(first + second, rest),
{
    if let Ok((items, end)) = rest {
        assert(first + (second + items) =~= (first + second) + items);
    }
}

/// The model of what the parser hands out for a run of expressions.
pub open spec fn items_outcome(r: Result<(Vec<Node>, usize), ParseError>) -> Parsed {
    match r {
        Ok((nodes, end)) => Ok((trees(nodes@), end as int)),
        Err(e) => Err(e@),
    }
}

/// The model of what the parser hands out for a line.
pub open spec fn parse_outcome(r: Result<Node, ParseError>) -> Result<Tree, SyntaxError> {
    match r {
        Ok(node) => Ok(node@),
        Err(e) => Err(e@),
    }
}

/// The class of the character `c`.
pub fn classify(c: char) -> (r: CharClass)
    ensures
        r == class_of(c),
{
    if c == ' ' || c == '\t' || c == '\n' || c == '\r' {
        CharClass::Blank
    } else if '0' <= c && c <= '9' {
        CharClass::Digit
    } else if c == '(' {
        CharClass::Open
    } else if c == ')' {
        CharClass::Close
    } else {
        CharClass::Symbol
    }
}

/// Where the run of characters of class `class` that starts at `from` ends.
pub fn scan_run(chars: &Vec<char>, from: usize, class: CharClass) -> (end: usize)
    requires
        from <= chars.len(),
    ensures
        end == run_end(chars@, from as int, class),
        from <= end <= chars.len(),
{
    let mut end = from;
    while end < chars.len() && classify(chars[end]) == class
        invariant
            from <= end <= chars.len(),
            run_end(chars@, from as int, class) == run_end(chars@, end as int, class),
        decreases chars.len() - end,
    {
        end += 1;
    }
    end
}

/// The rule of the token that starts at `at`, and where the token ends.
pub fn scan_token(chars: &Vec<char>, at: usize) -> (r: (Rule, usize))
    requires
        at < chars.len(),
    ensures
        r.0 == token_rule(chars@, at as int),
        r.1 == token_end(chars@, at as int),
        at < r.1 <= chars.len(),
{
    let c = chars[at];
    let signed = c == '+' || c == '-';
    if classify(c) == CharClass::Digit {
        (Rule::Number, scan_run(chars, at + 1, CharClass::Digit))
    } else if signed && at + 1 < chars.len() && classify(chars[at + 1]) == CharClass::Digit {
        (Rule::Number, scan_run(chars, at + 2, CharClass::Digit))
    } else {
        (Rule::Symbol, scan_run(chars, at + 1, CharClass::Symbol))
    }
}

/// Parses `expression*` from position `from`, inside `depth` lists.
pub fn parse_items(chars: &Vec<char>, from: usize, depth: usize) -> (r: Result<
    (Vec<Node>, usize),
    ParseError,
>)
    requires
        from <= chars.len(),
    ensures
        items_outcome(r) == items_from(chars@, from as int, depth as nat),
        r matches Ok((_, end)) ==> from <= end <= chars.len(),
    decreases chars.len() - from,
{
    let ghost s = chars@;
    let mut items: Vec<Node> = Vec::new();
    let mut pos = from;
    loop
        invariant
            s == chars@,
            from <= pos <= chars.len(),
            items_from(s, from as int, depth as nat) == prefixed(
                trees(items@),
                items_from(s, pos as int, depth as nat),
            ),
        decreases chars.len() - pos,
    {
        let at = scan_run(chars, pos, CharClass::Blank);
        if at >= chars.len() {
            return Ok((items, at));
        }
        let ghost before = trees(items@);
        match classify(chars[at]) {
            CharClass::Close => {
                return Ok((items, at));
            },
            CharClass::Open => {
                if depth >= MAX_DEPTH {
                    return Err(ParseError { position: at, kind: ParseErrorKind::TooDeep });
                }
                match parse_items(chars, at + 1, depth + 1) {
                    Err(e) => {
                        return Err(e);
                    },
                    Ok((children, close)) => {
                        if close >= chars.len() {
                            return Err(
                                ParseError {
                                    position: chars.len(),
                                    kind: ParseErrorKind::UnexpectedEnd,
                                },
                            );
                        }
                        let node = Node::branch(Rule::List, children);
                        items.push(node);
                        proof {
                            assert(trees(items@) =~= before + seq![list_tree(trees(children@))]);
                            lemma_prefixed_twice(
                                before,
                                seq![list_tree(trees(children@))],
                                items_from(s, close + 1, depth as nat),
                            );
                        }
                        pos = close + 1;
                    },
                }
            },
            _ => {
                let (rule, end) = scan_token(chars, at);
                let node = Node::leaf(rule, text_of(chars, at, end));
                items.push(node);
                proof {
                    let tree = token_tree(s, at as int, end as int);
                    assert(trees(items@) =~= before + seq![tree]);
                    lemma_prefixed_twice(before, seq![tree], items_from(s, end as int, depth as nat));
                }
                pos = end;
            },
        }
    }
}

/// Parses a line: the program node over the nodes of its expressions, or
/// the first syntax error from the left.
pub fn parse(text: &str) -> (r: Result<Node, ParseError>)
    ensures
        parse_outcome(r) == parse_program(text@),
{
    let chars = chars_of(text);
    match parse_items(&chars, 0, 0) {
        Err(e) => Err(e),
        Ok((items, end)) => {
            if end < chars.len() {
                Err(ParseError { position: end, kind: ParseErrorKind::UnexpectedClose })
            } else {
                Ok(Node::branch(Rule::Program, items))
            }
        },
    }
}

/// What the parser expected where it stopped.
pub open spec fn expectation(kind: ParseErrorKind) -> Seq<char> {
    match kind {
        ParseErrorKind::UnexpectedClose => "expected an expression or the end of the line"@,
        ParseErrorKind::UnexpectedEnd => "expected an expression or `)`"@,
        ParseErrorKind::TooDeep => "expected a number, a symbol or `)`: lists nest too deep"@,
    }
}

/// The diagnostic of a syntax error: its position, then what was expected
/// there.
pub open spec fn diagnostic(e: SyntaxError) -> Seq<char> {
    "position "@ + decimal(e.position) + ": "@ + expectation(e.kind)
}

impl ParseError {
    /// The diagnostic of the error as text.
    pub fn message(&self) -> (r: String)
        ensures
            r@ == diagnostic(self@),
    {
        let mut out = String::from_str("position ");
        push_decimal(&mut out, self.position as i128);
        out.append(": ");
        match self.kind {
            ParseErrorKind::UnexpectedClose => {
                out.append("expected an expression or the end of the line");
            },
            ParseErrorKind::UnexpectedEnd => {
                out.append("expected an expression or `)`");
            },
            ParseErrorKind::TooDeep => {
                out.append("expected a number, a symbol or `)`: lists nest too deep");
            },
        }
        out
    }
}

} // verus!
