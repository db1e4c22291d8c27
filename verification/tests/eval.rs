// Evaluating a formula is floating-point work and lives outside the verified
// core; these tests walk the tree that the library builds and apply IEEE-754
// double arithmetic to check that the built shapes carry the intended
// values.

use std::collections::HashMap;

use formular::Expr;
use formular::Formular;
use formular::Op;

fn eval_expr(e: &Expr, cells: &HashMap<(usize, usize), f64>) -> f64 {
    match e {
        Expr::BinOp(op, l, r) => {
            let a = eval_expr(l, cells);
            let b = eval_expr(r, cells);
            match op {
                Op::Plus => a + b,
                Op::Minus => a - b,
                Op::Times => a * b,
                Op::Div => a / b,
                Op::Rem => a % b,
                Op::Power => a.powf(b),
            }
        }
        Expr::Cell(cr) => *cells.get(&(cr.r, cr.c)).unwrap_or(&0.0),
        Expr::Value(text) => text.parse::<f64>().unwrap(),
    }
}

fn eval(s: &str, cells: &HashMap<(usize, usize), f64>) -> f64 {
    let f = Formular::new(s).unwrap();
    eval_expr(f.expr(), cells)
}

fn eval_plain(s: &str) -> f64 {
    eval(s, &HashMap::new())
}

#[test]
fn form_eval() {
    assert_eq!(5.0, eval_plain("1 + 2 * 3 - 2 ^ (3 - 2)"));
}

#[test]
fn mod_form_eval() {
    assert_eq!(5.0, eval_plain("1 + 2 * 3 - 2 ^ (3 - 2)"));
}

#[test]
fn precedence_is_honoured() {
    assert_eq!(14.0, eval_plain("2 + 3 * 4"));
    assert_eq!(20.0, eval_plain("(2 + 3) * 4"));
}

#[test]
fn power_is_right_associative() {
    assert_eq!(512.0, eval_plain("2 ^ 3 ^ 2"));
}

#[test]
fn subtraction_is_left_associative() {
    assert_eq!(5.0, eval_plain("10 - 3 - 2"));
}

#[test]
fn division_by_zero_is_infinite() {
    let r = eval_plain("5 / 0");
    assert!(r.is_infinite() && r.is_sign_positive());
    assert!(eval_plain("0 / 0").is_nan());
}

#[test]
fn remainder_by_zero_is_nan() {
    assert!(eval_plain("6 % 0").is_nan());
}

#[test]
fn unresolved_cell_defaults_to_zero() {
    assert_eq!(1.0, eval_plain("A1 + 1"));
}

#[test]
fn resolved_cell_value_is_used() {
    let mut cells = HashMap::new();
    cells.insert((1, 1), 12.0);
    assert_eq!(25.0, eval("2 * A1 + 1", &cells));
}

#[test]
fn signed_literals_evaluate() {
    assert_eq!(2.0, eval_plain("-3 + 5"));
    assert_eq!(8.0, eval_plain("5 - -3"));
    assert_eq!(1.5, eval_plain("+1.5"));
}

#[test]
fn fractional_literals_evaluate() {
    assert_eq!(4.0, eval_plain("2.5 + 1.5"));
}
