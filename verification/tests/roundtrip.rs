use anotlisp::number::parse_literal;
use anotlisp::{interpret, parse, Lval};

fn sym(name: &str) -> Lval {
    Lval::new_sym(name.to_string())
}

fn samples() -> Vec<Lval> {
    vec![
        Lval::Number(0),
        Lval::Number(-1),
        Lval::Number(i128::MAX),
        Lval::Number(i128::MIN),
        sym("+"),
        sym("-"),
        sym("foo"),
        sym("a-b"),
        sym("λ"),
        Lval::List(vec![]),
        Lval::List(vec![Lval::Number(5)]),
        Lval::List(vec![sym("+"), Lval::Number(1), Lval::Number(-2)]),
        Lval::List(vec![
            sym("*"),
            Lval::List(vec![sym("-"), Lval::Number(7)]),
            Lval::List(vec![Lval::List(vec![]), sym("x")]),
            Lval::Number(3),
        ]),
    ]
}

#[test]
fn written_values_read_back() {
    for v in samples() {
        let text = v.render();
        let tree = parse(&text).expect("the text of a value parses");
        assert_eq!(Lval::read(&tree), Lval::List(vec![v]), "{:?}", text);
    }
}

#[test]
fn written_values_evaluate_like_the_values() {
    for v in samples() {
        let text = v.render();
        assert_eq!(interpret(&text), format!("Result: {}", v.eval().render()), "{:?}", text);
    }
}

#[test]
fn written_numbers_read_back() {
    for n in [0i128, 1, -1, 9, 10, -10, 12345678901234567890, i128::MAX, i128::MIN, i128::MIN + 1] {
        assert_eq!(parse_literal(&Lval::Number(n).render()), Some(n));
        assert_eq!(interpret(&Lval::Number(n).render()), format!("Result: {}", n));
    }
}
