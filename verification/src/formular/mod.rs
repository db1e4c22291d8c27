pub mod ast;
pub mod parser;

use vstd::prelude::*;

use crate::cells::CellRef;
use crate::formular::ast::Expr;
use crate::formular::ast::ExprV;
use crate::formular::ast::deps_of;
use crate::formular::parser::FormularParser;
use crate::formular::parser::ParseStep;
use crate::formular::parser::accept_expr;
use crate::formular::parser::build_complete;
use crate::formular::parser::build_expr;
use crate::formular::parser::lemma_text_never_value_fails;
use crate::formular::parser::spec_tokens;

verus! {

/// The errors a formula can produce.
#[derive(Debug, PartialEq)]
pub enum FormularError {
    /// The grammar rejected the input: the character position at which it was
    /// rejected, and a description of what was expected there.
    FormularParserError(usize, String),
    /// A cell reference could not be decoded into a coordinate.
    CellRefParserError(String),
    /// A numeric literal is not a valid number.
    ValueParserError(String),
    /// Reserved for a future recalculation scheduler; never produced here.
    EvalCycleError,
}

/// What constructing a formula from text yields: the tree, or the kind of
/// failure. Tokens and grammar are judged first; only a grammatically whole
/// formula can fail on a reference or a literal.
pub ghost enum FormulaOut {
    Built(ExprV),
    SyntaxFail,
    CellRefFail,
    ValueFail,
}

/// The outcome of the whole pipeline over the text `s`: tokens, grammar,
/// tree.
pub open spec fn spec_formular(s: Seq<char>) -> FormulaOut {
    match spec_tokens(s) {
        None => FormulaOut::SyntaxFail,
        Some(ts) => if accept_expr(ts, 0) != Some(ts.len() as int) {
            FormulaOut::SyntaxFail
        } else {
            match build_complete(ts) {
                ParseStep::Done(e, _) => FormulaOut::Built(e),
                ParseStep::SyntaxFail => FormulaOut::SyntaxFail,
                ParseStep::CellRefFail => FormulaOut::CellRefFail,
                ParseStep::ValueFail => FormulaOut::ValueFail,
            }
        },
    }
}

/// Building a formula from text never fails on a numeric literal: the
/// tokenizer only cuts out well-formed numbers, so the literal check in the
/// builder cannot fire. The value-parse error is reachable only through a
/// token stream given to the builder directly.
pub proof fn lemma_text_never_fails_on_a_literal(s: Seq<char>)
    ensures
        spec_formular(s) != FormulaOut::ValueFail,
{
    lemma_text_never_value_fails(s);
}

/// A parsed formula: it owns its expression tree and the set of distinct
/// coordinates the tree refers to, computed once at construction.
#[derive(Clone, Debug)]
pub struct Formular {
    deps: Vec<CellRef>,
    expr: Box<Expr>,
}

impl Formular {
    /// The expression tree.
    pub closed spec fn expr_v(self) -> ExprV {
        self.expr@
    }

    /// The cached dependency list.
    pub closed spec fn deps_v(self) -> Seq<CellRef> {
        self.deps@
    }

    /// Parses `s` whole and builds the formula: its tree is exactly what the
    /// grammar and the builder yield for `s`, and its dependency list holds
    /// the tree's distinct coordinates, each once. Each kind of failure
    /// surfaces as its own error.
    pub fn new(s: &str) -> (r: Result<Formular, FormularError>)
        ensures
            (r is Ok) <==> (spec_formular(s@) matches FormulaOut::Built(_)),
            r matches Ok(f) ==> {
                &&& spec_formular(s@) == FormulaOut::Built(f.expr_v())
                &&& f.deps_v().no_duplicates()
                &&& forall|cr: CellRef|
                    #[trigger] f.deps_v().contains(cr) <==> deps_of(f.expr_v()).contains(cr)
            },
            spec_formular(s@) == FormulaOut::SyntaxFail ==> r matches Err(
                FormularError::FormularParserError(_, _),
            ),
            spec_formular(s@) == FormulaOut::CellRefFail ==> r matches Err(
                FormularError::CellRefParserError(_),
            ),
            spec_formular(s@) == FormulaOut::ValueFail ==> r matches Err(
                FormularError::ValueParserError(_),
            ),
    {
        let toks = match FormularParser::parse(s) {
            Ok(v) => v,
            Err(e) => {
                return Err(e);
            },
        };
        let expr = match build_expr(&toks) {
            Ok(e) => e,
            Err(e) => {
                return Err(e);
            },
        };
        let deps = expr.calc_deps();
        Ok(Formular { deps, expr })
    }

    /// The distinct coordinates this formula refers to, each exactly once.
    pub fn dependencies(&self) -> (d: &Vec<CellRef>)
        ensures
            d@ == self.deps_v(),
    {
        &self.deps
    }

    /// The root of the expression tree.
    pub fn expr(&self) -> (e: &Expr)
        ensures
            e@ == self.expr_v(),
    {
        &self.expr
    }
}

} // verus!
