use anotlisp::builtin::Operator;
use anotlisp::interpreter::interpret;
use anotlisp::value::Lval;

fn num(n: i128) -> Lval {
    Lval::new_num(n)
}

fn sym(name: &str) -> Lval {
    Lval::new_sym(name.to_string())
}

fn err(message: &str) -> Lval {
    Lval::new_err(message.to_string())
}

fn list(cells: Vec<Lval>) -> Lval {
    let mut out = Lval::new_sexpr();
    for cell in cells {
        out.add(cell);
    }
    out
}

fn call(op: &str, operands: Vec<i128>) -> Lval {
    let mut cells = vec![sym(op)];
    cells.extend(operands.into_iter().map(num));
    list(cells)
}

#[test]
fn bare_literal_evaluates_to_its_number() {
    assert_eq!(interpret("42"), "Result: 42");
    assert_eq!(interpret("-17"), "Result: -17");
    assert_eq!(interpret("+8"), "Result: 8");
    assert_eq!(interpret("0"), "Result: 0");
    assert_eq!(interpret("007"), "Result: 7");
    assert_eq!(
        interpret("170141183460469231731687303715884105727"),
        "Result: 170141183460469231731687303715884105727"
    );
    assert_eq!(
        interpret("-170141183460469231731687303715884105728"),
        "Result: -170141183460469231731687303715884105728"
    );
}

#[test]
fn sums_differences_and_products() {
    assert_eq!(call("+", vec![1, 2, 3]).eval(), num(6));
    assert_eq!(call("-", vec![5]).eval(), num(-5));
    assert_eq!(call("*", vec![2, 3, 4]).eval(), num(24));
    assert_eq!(call("-", vec![10, 3, 2]).eval(), num(5));
    assert_eq!(interpret("(+ 1 2 3)"), "Result: 6");
    assert_eq!(interpret("(- 5)"), "Result: -5");
    assert_eq!(interpret("(* 2 3 4)"), "Result: 24");
}

#[test]
fn zero_divisor_is_an_error() {
    assert_eq!(call("/", vec![4, 0]).eval(), err("Division by zero!"));
    assert_eq!(call("%", vec![4, 0]).eval(), err("Division by zero!"));
    assert_eq!(interpret("(/ 4 0)"), "Result: Error: Division by zero!");
    assert_eq!(interpret("(% 4 0)"), "Result: Error: Division by zero!");
}

#[test]
fn zero_divisor_stops_the_fold() {
    assert_eq!(call("/", vec![8, 0, 2]).eval(), err("Division by zero!"));
    assert_eq!(call("/", vec![8, 2, 0]).eval(), err("Division by zero!"));
}

#[test]
fn empty_list_is_not_an_error() {
    assert_eq!(Lval::new_sexpr().eval(), Lval::new_sexpr());
    assert_eq!(Lval::new_sexpr().eval().render(), "()");
    assert_eq!(interpret("()"), "Result: ()");
    assert_eq!(interpret(""), "Result: ()");
    assert_eq!(interpret("   "), "Result: ()");
}

#[test]
fn nested_lists_reduce_inside_out() {
    let inner = call("*", vec![2, 3]);
    let outer = list(vec![sym("+"), num(1), inner]);
    assert_eq!(outer.eval(), num(7));
    assert_eq!(interpret("(+ 1 (* 2 3))"), "Result: 7");
    assert_eq!(interpret("(* (+ 1 2) (- 10 4) (/ 9 3))"), "Result: 54");
}

#[test]
fn symbol_operand_is_rejected() {
    let expr = list(vec![sym("+"), num(1), sym("foo")]);
    assert_eq!(expr.eval(), err("Cannot operate on non-number!"));
    assert_eq!(interpret("(+ 1 foo)"), "Result: Error: Cannot operate on non-number!");
}

#[test]
fn list_operand_is_rejected() {
    assert_eq!(interpret("(+ 1 ())"), "Result: Error: Cannot operate on non-number!");
}

#[test]
fn non_number_is_found_before_any_arithmetic() {
    assert_eq!(interpret("(/ 1 0 foo)"), "Result: Error: Cannot operate on non-number!");
    assert_eq!(interpret("(foo 1 bar)"), "Result: Error: Cannot operate on non-number!");
}

#[test]
fn unknown_operator_is_rejected() {
    assert_eq!(call("foo", vec![1, 2]).eval(), err("Invalid operator!"));
    assert_eq!(interpret("(foo 1 2)"), "Result: Error: Invalid operator!");
    assert_eq!(interpret("(++ 1 2)"), "Result: Error: Invalid operator!");
}

#[test]
fn unknown_operator_with_one_operand_folds_nothing() {
    assert_eq!(call("foo", vec![1]).eval(), num(1));
    assert_eq!(call("+", vec![9]).eval(), num(9));
    assert_eq!(call("/", vec![9]).eval(), num(9));
}

#[test]
fn call_must_start_with_a_symbol() {
    let expr = list(vec![num(1), num(2), num(3)]);
    assert_eq!(expr.eval(), err("S-Expression does not start with symbol!"));
    assert_eq!(
        interpret("(1 2 3)"),
        "Result: Error: S-Expression does not start with symbol!"
    );
    assert_eq!(
        interpret("(() 2 3)"),
        "Result: Error: S-Expression does not start with symbol!"
    );
}

#[test]
fn reduced_values_evaluate_to_themselves() {
    assert_eq!(num(7).eval(), num(7));
    assert_eq!(num(i128::MIN).eval(), num(i128::MIN));
    assert_eq!(sym("foo").eval(), sym("foo"));
    assert_eq!(sym("+").eval(), sym("+"));
    assert_eq!(err("Division by zero!").eval(), err("Division by zero!"));
    assert_eq!(num(7).eval_sexpr(), num(7));
    assert_eq!(sym("foo").eval_sexpr(), sym("foo"));
}

#[test]
fn evaluating_twice_changes_nothing() {
    let values = vec![
        call("+", vec![1, 2]),
        call("/", vec![1, 0]),
        list(vec![sym("foo")]),
        list(vec![list(vec![])]),
        list(vec![num(1), num(2)]),
    ];
    for v in values {
        let once = v.eval();
        assert_eq!(once.eval(), once);
    }
}

#[test]
fn evaluation_leaves_the_value_as_it_was() {
    let expr = list(vec![sym("+"), num(1), call("*", vec![2, 3])]);
    let copy = expr.clone();
    assert_eq!(expr.eval(), num(7));
    assert_eq!(expr, copy);
}

#[test]
fn first_error_wins() {
    let first = list(vec![sym("/"), num(1), num(0)]);
    let second = list(vec![sym("foo"), num(2), num(0)]);
    let expr = list(vec![sym("+"), first, second]);
    assert_eq!(expr.eval(), err("Division by zero!"));
    assert_eq!(interpret("(+ (/ 1 0) (/ 2 0))"), "Result: Error: Division by zero!");
    assert_eq!(interpret("(+ (/ 1 0) (foo 2 0))"), "Result: Error: Division by zero!");
    assert_eq!(interpret("(+ (foo 2 0) (/ 1 0))"), "Result: Error: Invalid operator!");
    assert_eq!(interpret("(+ (1 2) (/ 1 0))"), "Result: Error: S-Expression does not start with symbol!");
}

#[test]
fn error_child_wins_over_a_bad_head() {
    let expr = list(vec![num(1), err("first"), err("second")]);
    assert_eq!(expr.eval(), err("first"));
}

#[test]
fn single_child_stands_for_its_list() {
    assert_eq!(list(vec![num(5)]).eval(), num(5));
    assert_eq!(list(vec![sym("foo")]).eval(), sym("foo"));
    assert_eq!(list(vec![sym("+")]).eval(), sym("+"));
    assert_eq!(list(vec![list(vec![])]).eval(), list(vec![]));
    assert_eq!(interpret("(5)"), "Result: 5");
    assert_eq!(interpret("(foo)"), "Result: foo");
    assert_eq!(interpret("((((7))))"), "Result: 7");
    assert_eq!(interpret("foo"), "Result: foo");
}

#[test]
fn top_level_is_a_list_of_its_expressions() {
    assert_eq!(interpret("+ 1 2"), "Result: 3");
    assert_eq!(interpret("1 2"), "Result: Error: S-Expression does not start with symbol!");
    assert_eq!(interpret("(+ 1 2) (+ 3 4)"), "Result: Error: S-Expression does not start with symbol!");
}

#[test]
fn division_rounds_toward_zero() {
    assert_eq!(call("/", vec![7, 2]).eval(), num(3));
    assert_eq!(call("/", vec![-7, 2]).eval(), num(-3));
    assert_eq!(call("/", vec![7, -2]).eval(), num(-3));
    assert_eq!(call("/", vec![-7, -2]).eval(), num(3));
    assert_eq!(call("/", vec![100, 5, 2]).eval(), num(10));
}

#[test]
fn remainder_has_the_sign_of_the_dividend() {
    assert_eq!(call("%", vec![7, 2]).eval(), num(1));
    assert_eq!(call("%", vec![-7, 2]).eval(), num(-1));
    assert_eq!(call("%", vec![7, -2]).eval(), num(1));
    assert_eq!(call("%", vec![-7, -2]).eval(), num(-1));
    assert_eq!(call("%", vec![i128::MIN, -1]).eval(), num(0));
    assert_eq!(call("%", vec![i128::MAX, i128::MIN]).eval(), num(i128::MAX));
}

#[test]
fn overflow_is_an_error() {
    assert_eq!(call("+", vec![i128::MAX, 1]).eval(), err("Integer overflow!"));
    assert_eq!(call("-", vec![i128::MIN, 1]).eval(), err("Integer overflow!"));
    assert_eq!(call("*", vec![i128::MAX, 2]).eval(), err("Integer overflow!"));
    assert_eq!(call("/", vec![i128::MIN, -1]).eval(), err("Integer overflow!"));
    assert_eq!(call("-", vec![i128::MIN]).eval(), err("Integer overflow!"));
    assert_eq!(call("+", vec![i128::MAX, 1, -1]).eval(), err("Integer overflow!"));
}

#[test]
fn results_at_the_limits_are_numbers() {
    assert_eq!(call("+", vec![i128::MAX, 0]).eval(), num(i128::MAX));
    assert_eq!(call("+", vec![i128::MAX - 1, 1]).eval(), num(i128::MAX));
    assert_eq!(call("-", vec![i128::MIN + 1, 1]).eval(), num(i128::MIN));
    assert_eq!(call("-", vec![i128::MAX]).eval(), num(-i128::MAX));
    assert_eq!(call("*", vec![i128::MIN, 1]).eval(), num(i128::MIN));
    assert_eq!(call("/", vec![i128::MIN, 1]).eval(), num(i128::MIN));
}

#[test]
fn builtin_op_applies_to_the_children() {
    let operands = list(vec![num(8), num(2), num(2)]);
    assert_eq!(operands.builtin_op(&"+".to_string()), num(12));
    assert_eq!(operands.builtin_op(&"-".to_string()), num(4));
    assert_eq!(operands.builtin_op(&"*".to_string()), num(32));
    assert_eq!(operands.builtin_op(&"/".to_string()), num(2));
    assert_eq!(operands.builtin_op(&"%".to_string()), num(0));
    assert_eq!(operands.builtin_op(&"".to_string()), err("Invalid operator!"));
    assert_eq!(operands.builtin_op(&"+-".to_string()), err("Invalid operator!"));
    assert_eq!(
        list(vec![num(8), sym("x")]).builtin_op(&"+".to_string()),
        err("Cannot operate on non-number!")
    );
    assert_eq!(
        list(vec![err("boom")]).builtin_op(&"-".to_string()),
        err("Cannot operate on non-number!")
    );
    assert_eq!(list(vec![num(8)]).builtin_op(&"-".to_string()), num(-8));
}

#[test]
fn operators_are_named_by_one_character() {
    assert_eq!(Operator::named("+"), Some(Operator::Add));
    assert_eq!(Operator::named("-"), Some(Operator::Sub));
    assert_eq!(Operator::named("*"), Some(Operator::Mul));
    assert_eq!(Operator::named("/"), Some(Operator::Div));
    assert_eq!(Operator::named("%"), Some(Operator::Rem));
    assert_eq!(Operator::named(""), None);
    assert_eq!(Operator::named("++"), None);
    assert_eq!(Operator::named("add"), None);
    assert_eq!(Operator::named("^"), None);
}
