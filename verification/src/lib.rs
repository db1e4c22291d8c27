pub mod cells;
pub mod formular;

pub use cells::CellRef;
pub use formular::Formular;
pub use formular::FormularError;
pub use formular::ast::Expr;
pub use formular::ast::Op;
pub use formular::parser::FormularParser;
pub use formular::parser::Token;
pub use formular::parser::TokenKind;
pub use formular::parser::build_expr;
pub use formular::parser::parse_cell_ref_col;
