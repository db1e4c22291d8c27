use vstd::prelude::*;

use crate::cells::CellRef;

verus! {

/// Binary operations of values.
#[derive(Clone, Copy, Debug, PartialEq, Eq, Structural)]
pub enum Op {
    Plus,
    Minus,
    Times,
    Div,
    Rem,
    Power,
}

/// The mathematical shape of an expression tree: the view of [`Expr`].
/// A literal is kept as the sequence of characters of its source text.
pub ghost enum ExprV {
    BinOp(Op, Box<ExprV>, Box<ExprV>),
    Cell(CellRef),
    Value(Seq<char>),
}

/// An expression of a formula. A binary node owns its two children; a cell
/// node holds the decoded coordinate; a literal node holds the text of the
/// number exactly as it stood in the formula. Interpreting that text as a
/// machine number is the evaluator's concern, outside this core.
#[derive(Debug, PartialEq)]
pub enum Expr {
    BinOp(Op, Box<Expr>, Box<Expr>),
    Cell(CellRef),
    Value(String),
}

/// The shape of an expression tree, literal text as character sequences.
pub open spec fn expr_view(e: Expr) -> ExprV
    decreases e,
{
    match e {
        Expr::BinOp(op, l, r) => ExprV::BinOp(op, Box::new(expr_view(*l)), Box::new(expr_view(*r))),
        Expr::Cell(cr) => ExprV::Cell(cr),
        Expr::Value(s) => ExprV::Value(s@),
    }
}

impl View for Expr {
    type V = ExprV;

    open spec fn view(&self) -> ExprV {
        expr_view(*self)
    }
}

impl Clone for Expr {
    /// A clone is a fresh tree of the same shape.
    fn clone(&self) -> (r: Self)
        ensures
            r@ == self@,
        decreases self,
    {
        match self {
            Expr::BinOp(op, l, r) => Expr::BinOp(
                *op,
                Box::new((**l).clone()),
                Box::new((**r).clone()),
            ),
            Expr::Cell(cr) => Expr::Cell(*cr),
            Expr::Value(s) => Expr::Value(s.clone()),
        }
    }
}

/// The set of distinct coordinates an expression refers to.
pub open spec fn deps_of(e: ExprV) -> Set<CellRef>
    decreases e,
{
    match e {
        ExprV::BinOp(_, l, r) => deps_of(*l).union(deps_of(*r)),
        ExprV::Cell(cr) => set![cr],
        ExprV::Value(_) => Set::empty(),
    }
}

/// Whether `v` holds the coordinate `cr`.
fn contains_cell(v: &Vec<CellRef>, cr: CellRef) -> (b: bool)
    ensures
        b == v@.contains(cr),
{
    let mut i: usize = 0;
    while i < v.len()
        invariant
            i <= v.len(),
            forall|k: int| 0 <= k < i ==> v@[k] != cr,
        decreases v@.len() - i,
    {
        if v[i] == cr {
            assert(v@.contains(cr)) by {
                assert(v@[i as int] == cr);
            }
            return true;
        }
        i += 1;
    }
    assert(!v@.contains(cr));
    false
}

impl Expr {
    /// Walks the tree and collects every referenced coordinate into `deps`,
    /// skipping those already present.
    fn collect_deps(&self, deps: &mut Vec<CellRef>)
        requires
            old(deps)@.no_duplicates(),
        ensures
            final(deps)@.no_duplicates(),
            forall|cr: CellRef|
                #[trigger] final(deps)@.contains(cr) <==> old(deps)@.contains(cr)
                    || deps_of(self@).contains(cr),
        decreases self,
    {
        match self {
            Expr::BinOp(_, l, r) => {
                l.collect_deps(deps);
                let ghost mid = deps@;
                r.collect_deps(deps);
                assert forall|cr: CellRef| #[trigger] deps@.contains(cr) <==> old(
                    deps,
                )@.contains(cr) || deps_of(self@).contains(cr) by {
                    assert(deps@.contains(cr) <==> mid.contains(cr) || deps_of(
                        (**r)@,
                    ).contains(cr));
                    assert(mid.contains(cr) <==> old(deps)@.contains(cr) || deps_of(
                        (**l)@,
                    ).contains(cr));
                    assert(deps_of(self@) == deps_of((**l)@).union(deps_of((**r)@)));
                }
            },
            Expr::Cell(cr) => {
                broadcast use vstd::seq_lib::lemma_seq_contains_after_push;

                if !contains_cell(deps, *cr) {
                    deps.push(*cr);
                }
                assert(deps_of(self@) == set![*cr]);
            },
            Expr::Value(_) => {},
        }
    }

    /// The distinct coordinates this expression refers to, each exactly once,
    /// in the order of their first appearance in a left-to-right walk.
    pub fn calc_deps(&self) -> (deps: Vec<CellRef>)
        ensures
            deps@.no_duplicates(),
            forall|cr: CellRef| #[trigger] deps@.contains(cr) <==> deps_of(self@).contains(cr),
    {
        let mut deps: Vec<CellRef> = Vec::new();
        self.collect_deps(&mut deps);
        deps
    }
}

} // verus!
