use prism::ast::{Definition, Func, Source, Var, VarExpr};
use prism::pretty_print::PrettyPrint;

fn assert_pretty_print(expr: VarExpr, expected: &str) {
    assert_eq!(expr.pretty_print(), expected);
}

fn x() -> VarExpr {
    VarExpr::var(Var::X)
}

fn y() -> VarExpr {
    VarExpr::var(Var::Y)
}

#[test]
fn ast_test_var_expr_pretty_print() {
    assert_pretty_print(x(), "x");
    assert_pretty_print(y(), "y");
    assert_pretty_print(VarExpr::add(x(), y()), "x + y");
    assert_pretty_print(
        VarExpr::mul(VarExpr::constant(3), VarExpr::sub(x(), VarExpr::constant(1))),
        "3 * (x - 1)",
    );
}

#[test]
fn ast_test_func_pretty_print() {
    // f(x, y) = g(x + 1, y - 1) + g(x - 1, y) + 2
    let g = Source::new("g");
    let f = Func::new(
        "f",
        Definition::add(
            Definition::add(
                g.at(VarExpr::add(x(), VarExpr::constant(1)), VarExpr::sub(y(), VarExpr::constant(1))),
                g.at(VarExpr::sub(x(), VarExpr::constant(1)), y()),
            ),
            Definition::constant(2),
        ),
    );
    assert_eq!(f.pretty_print(), "f(x, y) = (g(x + 1, y - 1) + g(x - 1, y)) + 2");
}

#[test]
fn test_var_expr_pretty_print() {
    assert_pretty_print(x(), "x");
    assert_pretty_print(y(), "y");
    assert_pretty_print(VarExpr::add(x(), y()), "x + y");
    assert_pretty_print(
        VarExpr::mul(VarExpr::constant(3), VarExpr::sub(x(), VarExpr::constant(1))),
        "3 * (x - 1)",
    );
}

#[test]
fn test_func_pretty_print() {
    let g = Source::new("g");
    let f = Func::new(
        "f",
        Definition::add(
            Definition::add(
                g.at(VarExpr::add(x(), VarExpr::constant(1)), VarExpr::sub(y(), VarExpr::constant(1))),
                g.at(VarExpr::sub(x(), VarExpr::constant(1)), y()),
            ),
            Definition::constant(2),
        ),
    );
    assert_eq!(f.pretty_print(), "f(x, y) = (g(x + 1, y - 1) + g(x - 1, y)) + 2");
}

#[test]
fn pretty_print_negative_constant_and_division() {
    let e = VarExpr::sub(VarExpr::constant(-12), VarExpr::constant(i32::MIN));
    assert_eq!(e.pretty_print(), "-12 - -2147483648");
    let d = Definition::div(Definition::constant(0), Definition::constant(7));
    assert_eq!(d.pretty_print(), "0 / 7");
}

#[test]
fn var_expr_evaluate() {
    let e = VarExpr::mul(VarExpr::constant(3), VarExpr::sub(x(), VarExpr::constant(1)));
    assert_eq!(e.evaluate(5, 0), 12);
    let w = VarExpr::add(VarExpr::constant(i32::MAX), y());
    assert_eq!(w.evaluate(0, 1), i32::MIN);
}

#[test]
fn distinct_definitions_print_differently() {
    let a = Definition::mul(
        Definition::sub(Source::new("g").at(x(), y()), Definition::constant(1)),
        Definition::constant(3),
    );
    let b = Definition::sub(
        Source::new("g").at(x(), y()),
        Definition::mul(Definition::constant(1), Definition::constant(3)),
    );
    assert_eq!(a.pretty_print(), "(g(x, y) - 1) * 3");
    assert_eq!(b.pretty_print(), "g(x, y) - (1 * 3)");
    assert_ne!(a.pretty_print(), b.pretty_print());
}

#[test]
fn condition_pretty_print() {
    let p = prism::ast::Param::new("p");
    let d = Definition::cond(prism::ast::Condition::new(
        prism::ast::Comparison::GTE,
        Source::new("in").at(x(), y()),
        Definition::param(&p),
        Definition::constant(250),
        Definition::add(Definition::constant(1), Definition::constant(2)),
    ));
    assert_eq!(d.pretty_print(), "if in(x, y) >= (p) {250} else {(1 + 2)}");
}
