use anotlisp::value::Lval;

#[test]
fn constructors_build_each_variant() {
    assert_eq!(Lval::new_num(-3), Lval::Number(-3));
    assert_eq!(Lval::new_err("bad".to_string()), Lval::Error("bad".to_string()));
    assert_eq!(Lval::new_sym("foo".to_string()), Lval::Symbol("foo".to_string()));
    assert_eq!(Lval::new_sexpr(), Lval::List(vec![]));
}

#[test]
fn add_appends_in_order() {
    let mut list = Lval::new_sexpr();
    list.add(Lval::new_num(1)).add(Lval::new_num(2)).add(Lval::new_sym("x".to_string()));
    assert_eq!(
        list,
        Lval::List(vec![Lval::Number(1), Lval::Number(2), Lval::Symbol("x".to_string())])
    );
}

#[test]
fn add_leaves_a_leaf_alone() {
    let mut n = Lval::new_num(1);
    n.add(Lval::new_num(2));
    assert_eq!(n, Lval::Number(1));
    let mut s = Lval::new_sym("s".to_string());
    s.add(Lval::new_num(2));
    assert_eq!(s, Lval::Symbol("s".to_string()));
}

#[test]
fn pop_removes_and_shifts() {
    let mut list = Lval::List(vec![Lval::Number(1), Lval::Number(2), Lval::Number(3)]);
    assert_eq!(list.pop(1), Lval::Number(2));
    assert_eq!(list, Lval::List(vec![Lval::Number(1), Lval::Number(3)]));
    assert_eq!(list.pop(0), Lval::Number(1));
    assert_eq!(list.pop(0), Lval::Number(3));
    assert_eq!(list, Lval::new_sexpr());
}

#[test]
fn clone_copies_the_whole_tree() {
    let inner = Lval::List(vec![Lval::Number(2), Lval::Error("e".to_string())]);
    let tree = Lval::List(vec![Lval::Symbol("+".to_string()), inner]);
    let mut copy = tree.clone();
    assert_eq!(copy, tree);
    copy.add(Lval::Number(9));
    assert_ne!(copy, tree);
}

#[test]
fn numbers_render_in_decimal() {
    assert_eq!(Lval::new_num(0).render(), "0");
    assert_eq!(Lval::new_num(7).render(), "7");
    assert_eq!(Lval::new_num(10).render(), "10");
    assert_eq!(Lval::new_num(-1).render(), "-1");
    assert_eq!(Lval::new_num(1234567890).render(), "1234567890");
    assert_eq!(Lval::new_num(i128::MAX).render(), "170141183460469231731687303715884105727");
    assert_eq!(Lval::new_num(i128::MIN).render(), "-170141183460469231731687303715884105728");
}

#[test]
fn rendering_agrees_with_std() {
    let samples = [0i128, 1, 9, 10, 11, 99, 100, 101, -9, -10, -100, 1 << 64, -(1 << 100), i128::MAX - 1];
    for n in samples {
        assert_eq!(Lval::new_num(n).render(), n.to_string());
    }
}

#[test]
fn symbols_render_verbatim() {
    assert_eq!(Lval::new_sym("foo".to_string()).render(), "foo");
    assert_eq!(Lval::new_sym("+".to_string()).render(), "+");
    assert_eq!(Lval::new_sym("".to_string()).render(), "");
    assert_eq!(Lval::new_sym("λ→x".to_string()).render(), "λ→x");
}

#[test]
fn errors_render_with_a_prefix() {
    assert_eq!(Lval::new_err("Division by zero!".to_string()).render(), "Error: Division by zero!");
    assert_eq!(Lval::new_err("".to_string()).render(), "Error: ");
}

#[test]
fn lists_render_between_parentheses() {
    assert_eq!(Lval::new_sexpr().render(), "()");
    assert_eq!(Lval::List(vec![Lval::Number(1)]).render(), "(1)");
    let nested = Lval::List(vec![
        Lval::Symbol("+".to_string()),
        Lval::Number(1),
        Lval::List(vec![Lval::Symbol("*".to_string()), Lval::Number(-2), Lval::Number(3)]),
        Lval::List(vec![]),
        Lval::Error("x".to_string()),
    ]);
    assert_eq!(nested.render(), "(+ 1 (* -2 3) () Error: x)");
}

#[test]
fn render_into_appends() {
    let mut out = String::from("> ");
    Lval::List(vec![Lval::Number(1), Lval::Number(2)]).render_into(&mut out);
    assert_eq!(out, "> (1 2)");
}
