use formular::CellRef;
use formular::Formular;
use formular::FormularError;
use formular::FormularParser;
use formular::Token;
use formular::TokenKind;
use formular::build_expr;
use formular::parse_cell_ref_col;

#[test]
fn parse_formular() {
    assert!(FormularParser::parse("1 + 2 * A1").is_ok());
}

#[test]
fn parse_formular_error() {
    assert!(FormularParser::parse("1 + 2 * 1A").is_err());
}

#[test]
fn mod_parse_formular() {
    assert!(FormularParser::parse("1 + 2 * A1").is_ok());
}

#[test]
fn mod_parse_formular_error() {
    assert!(FormularParser::parse("1 + 2 * 1A").is_err());
}

#[test]
fn parse_cell_ref_col_uppercase() {
    assert_eq!(Ok(1), parse_cell_ref_col("A"));
    assert_eq!(Ok(6), parse_cell_ref_col("F"));
    assert_eq!(Ok(26), parse_cell_ref_col("Z"));
    assert_eq!(Ok(27), parse_cell_ref_col("AA"));
}

#[test]
fn parse_cell_ref_col_lowercase() {
    assert_eq!(Ok(1), parse_cell_ref_col("a"));
    assert_eq!(Ok(6), parse_cell_ref_col("f"));
    assert_eq!(Ok(26), parse_cell_ref_col("z"));
    assert_eq!(Ok(27), parse_cell_ref_col("aa"));
}

#[test]
fn parse_cell_ref_col_mixedcase() {
    assert_eq!(Ok(28), parse_cell_ref_col("aB"));
    assert_eq!(Ok(53), parse_cell_ref_col("Ba"));
}

#[test]
fn parse_cell_ref_col_ab_is_28() {
    assert_eq!(Ok(28), parse_cell_ref_col("AB"));
    assert_eq!(Ok(28), parse_cell_ref_col("Ab"));
    assert_eq!(Ok(28), parse_cell_ref_col("aB"));
    assert_eq!(Ok(28), parse_cell_ref_col("ab"));
}

#[test]
fn parse_cell_ref_col_rejects_non_letter() {
    let r = parse_cell_ref_col("A1");
    assert!(matches!(r, Err(FormularError::CellRefParserError(_))));
}

#[test]
fn digit_then_letter_is_a_syntax_error() {
    let r = Formular::new("1A");
    assert!(matches!(r, Err(FormularError::FormularParserError(_, _))));
}

#[test]
fn dangling_dot_is_a_syntax_error() {
    assert!(matches!(
        Formular::new("1."),
        Err(FormularError::FormularParserError(_, _))
    ));
    assert!(matches!(
        Formular::new(".5"),
        Err(FormularError::FormularParserError(_, _))
    ));
}

#[test]
fn column_without_row_is_a_syntax_error() {
    assert!(matches!(
        Formular::new("A + 1"),
        Err(FormularError::FormularParserError(_, _))
    ));
    assert!(matches!(
        Formular::new("A 1"),
        Err(FormularError::FormularParserError(_, _))
    ));
}

#[test]
fn unbalanced_parentheses_are_a_syntax_error() {
    assert!(matches!(
        Formular::new("(1 + 2"),
        Err(FormularError::FormularParserError(_, _))
    ));
    assert!(matches!(
        Formular::new("1 + 2)"),
        Err(FormularError::FormularParserError(_, _))
    ));
}

#[test]
fn empty_input_is_a_syntax_error() {
    assert!(matches!(
        Formular::new(""),
        Err(FormularError::FormularParserError(_, _))
    ));
    assert!(matches!(
        Formular::new("   "),
        Err(FormularError::FormularParserError(_, _))
    ));
}

#[test]
fn huge_column_is_a_cell_ref_error() {
    // the grammar accepts the reference, but its column value cannot fit
    assert!(FormularParser::parse("ZZZZZZZZZZZZZZZZ1").is_ok());
    assert!(matches!(
        Formular::new("ZZZZZZZZZZZZZZZZ1"),
        Err(FormularError::CellRefParserError(_))
    ));
}

#[test]
fn huge_row_is_a_cell_ref_error() {
    assert!(matches!(
        Formular::new("A123456789123456789123456789"),
        Err(FormularError::CellRefParserError(_))
    ));
}

#[test]
fn crafted_literal_token_is_a_value_error() {
    // through the public builder: a token whose text is no number
    let toks = vec![Token {
        pos: 0,
        kind: TokenKind::Num("abc".to_string()),
    }];
    assert!(matches!(
        build_expr(&toks),
        Err(FormularError::ValueParserError(_))
    ));
}

#[test]
fn whitespace_is_insignificant() {
    assert!(FormularParser::parse(" 1\t+ 2 *A1 ").is_ok());
}

#[test]
fn cell_ref_new_keeps_fields() {
    let cr = CellRef::new(12, 34);
    assert_eq!(12, cr.r);
    assert_eq!(34, cr.c);
    assert_eq!(CellRef::default(), CellRef::new(0, 0));
}
