//! The front end as one step: source text to the intermediate representation.
use vstd::prelude::*;
use vstd::string::StringSliceAdditionalSpecFns;
use crate::ast::Expr;
use crate::ir::{self, IrArena, IrExpr, IrId};
use crate::irgen::{self, lower, LoweringError};
use crate::parser::{self, parenthesized, parse_spec, ParseError};

verus! {

/// The first stage of the front end that failed, with its error.
#[derive(Debug, Clone, Copy, PartialEq, Eq, Structural)]
pub enum FrontEndError {
    Parse(ParseError),
    Lowering(LoweringError),
}

/// What the source `s` compiles to: the lowered tree of its expression, if it
/// writes one.
pub open spec fn front_end(s: Seq<u8>) -> Option<IrExpr> {
    match parse_spec(s) {
        Some(e) => Some(lower(e)),
        None => None,
    }
}

/// `r` is what compiling `s` returns: the lowered expression in a well-formed
/// arena, or a parse error exactly where `s` writes no expression.
pub open spec fn compiled_as(s: Seq<u8>, r: Result<(IrArena, IrId), FrontEndError>) -> bool {
    &&& r is Ok <==> front_end(s) is Some
    &&& r is Ok ==> {
        let (arena, root) = r->Ok_0;
        &&& ir::arena_wf(arena)
        &&& ir::valid_id(arena, root)
        &&& ir::tree_of(arena, root) == front_end(s)->Some_0
        &&& ir::ir_items(arena).len() == ir::size(front_end(s)->Some_0)
        &&& ir::ir_id_index(root) == ir::ir_items(arena).len() - 1
        &&& ir::laid_out(ir::ir_items(arena), 0, front_end(s)->Some_0)
    }
    &&& r is Err ==> {
        &&& r->Err_0 is Parse
        &&& r->Err_0->Parse_0.offset <= s.len()
    }
}

/// Parses `src` and lowers the result: the intermediate representation that
/// code generation starts from.
pub fn compile(src: &str) -> (r: Result<(IrArena, IrId), FrontEndError>)
    ensures
        compiled_as(src.spec_bytes(), r),
{
    let (ast_arena, ast_root) = match parser::parse(src) {
        Ok(x) => x,
        Err(e) => {
            return Err(FrontEndError::Parse(e));
        },
    };
    match irgen::generate(ast_arena, ast_root) {
        Ok(x) => Ok(x),
        Err(e) => Err(FrontEndError::Lowering(e)),
    }
}

/// Parentheses are transparent: an expression in parentheses lowers to the
/// same tree as the expression alone.
pub proof fn lemma_paren_transparent(e: Expr)
    ensures
        lower(Expr::Paren(Box::new(e))) == lower(e),
{
}

/// Two results that hold the same tree hold the same arena: the same length,
/// the same node at each position (ids compared by position) and the root at
/// the same position.
pub open spec fn same_ir(r1: (IrArena, IrId), r2: (IrArena, IrId)) -> bool {
    let (a1, q1) = r1;
    let (a2, q2) = r2;
    &&& ir::ir_items(a1).len() == ir::ir_items(a2).len()
    &&& forall|j: int| 0 <= j < ir::ir_items(a1).len() ==> ir::same_shape(
        #[trigger] ir::ir_items(a1)[j],
        ir::ir_items(a2)[j],
    )
    &&& ir::ir_id_index(q1) == ir::ir_id_index(q2)
}

proof fn lemma_same_ir(s1: Seq<u8>, s2: Seq<u8>, r1: (IrArena, IrId), r2: (IrArena, IrId))
    requires
        compiled_as(s1, Ok(r1)),
        compiled_as(s2, Ok(r2)),
        front_end(s1) == front_end(s2),
    ensures
        same_ir(r1, r2),
{
    let e = front_end(s1)->Some_0;
    assert forall|j: int| 0 <= j < ir::ir_items(r1.0).len() implies ir::same_shape(
        #[trigger] ir::ir_items(r1.0)[j],
        ir::ir_items(r2.0)[j],
    ) by {
        ir::lemma_layout_unique(ir::ir_items(r1.0), ir::ir_items(r2.0), 0, e, j);
    }
}

/// Parentheses around a whole source are transparent: where `s` compiles, `s`
/// in parentheses compiles to the same intermediate tree, and to the same
/// arena node for node.
pub proof fn lemma_parenthesized_source(
    s: Seq<u8>,
    r1: Result<(IrArena, IrId), FrontEndError>,
    r2: Result<(IrArena, IrId), FrontEndError>,
)
    requires
        front_end(s) is Some,
        compiled_as(s, r1),
        compiled_as(parenthesized(s), r2),
    ensures
        front_end(parenthesized(s)) == front_end(s),
        r1 is Ok && r2 is Ok,
        same_ir(r1->Ok_0, r2->Ok_0),
{
    parser::lemma_parse_parenthesized(s);
    lemma_same_ir(s, parenthesized(s), r1->Ok_0, r2->Ok_0);
}

/// Compiling the same source twice gives the same outcome: both fail, or both
/// give the same intermediate tree in the same arena layout.
pub proof fn lemma_compile_deterministic(
    s: Seq<u8>,
    r1: Result<(IrArena, IrId), FrontEndError>,
    r2: Result<(IrArena, IrId), FrontEndError>,
)
    requires
        compiled_as(s, r1),
        compiled_as(s, r2),
    ensures
        r1 is Ok <==> r2 is Ok,
        r1 is Ok ==> ir::tree_of(r1->Ok_0.0, r1->Ok_0.1) == ir::tree_of(r2->Ok_0.0, r2->Ok_0.1),
        r1 is Ok ==> same_ir(r1->Ok_0, r2->Ok_0),
{
    if r1 is Ok {
        lemma_same_ir(s, s, r1->Ok_0, r2->Ok_0);
    }
}

} // verus!
