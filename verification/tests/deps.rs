use std::collections::HashSet;

use formular::CellRef;
use formular::Expr;
use formular::Formular;
use formular::Op;

fn as_set(v: &[CellRef]) -> HashSet<CellRef> {
    v.iter().copied().collect()
}

#[test]
fn calc_deps_simple() {
    let exp: HashSet<CellRef> = vec![CellRef::new(1, 1)].into_iter().collect();
    assert_eq!(exp, as_set(&Expr::Cell(CellRef::new(1, 1)).calc_deps()));
}

#[test]
fn calc_deps_complex() {
    let exp: HashSet<CellRef> = vec![CellRef::new(1, 1), CellRef::new(2, 3)]
        .into_iter()
        .collect();
    assert_eq!(
        exp,
        as_set(
            &Expr::BinOp(
                Op::Plus,
                Box::new(Expr::Cell(CellRef::new(1, 1))),
                Box::new(Expr::BinOp(
                    Op::Minus,
                    Box::new(Expr::Value("0".to_string())),
                    Box::new(Expr::Cell(CellRef::new(2, 3)))
                ))
            )
            .calc_deps()
        )
    );
}

#[test]
fn calc_deps_double_cell_refs() {
    let exp: HashSet<CellRef> = vec![CellRef::new(7, 4)].into_iter().collect();
    let deps = Expr::BinOp(
        Op::Plus,
        Box::new(Expr::Cell(CellRef::new(7, 4))),
        Box::new(Expr::BinOp(
            Op::Minus,
            Box::new(Expr::Value("0".to_string())),
            Box::new(Expr::Cell(CellRef::new(7, 4))),
        )),
    )
    .calc_deps();
    assert_eq!(exp, as_set(&deps));
    assert_eq!(1, deps.len());
}

#[test]
fn formula_dependencies_are_duplicate_free() {
    // the same coordinate referenced twice appears once
    let f = Formular::new("A1 - A1").unwrap();
    assert_eq!(1, f.dependencies().len());
    assert_eq!(CellRef::new(1, 1), f.dependencies()[0]);
}

#[test]
fn formula_dependencies_collect_every_reference() {
    let f = Formular::new("A1 + B2 * (C3 - A1)").unwrap();
    let exp: HashSet<CellRef> = vec![
        CellRef::new(1, 1),
        CellRef::new(2, 2),
        CellRef::new(3, 3),
    ]
    .into_iter()
    .collect();
    assert_eq!(exp, as_set(f.dependencies()));
    assert_eq!(3, f.dependencies().len());
}

#[test]
fn literals_have_no_dependencies() {
    let f = Formular::new("1 + 2 * 3").unwrap();
    assert!(f.dependencies().is_empty());
}
