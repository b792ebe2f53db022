//! Lowering: the syntax tree is rewritten, node by node, into the intermediate
//! representation, with parentheses erased.
use vstd::prelude::*;
use crate::ast::{self, ast_get, ast_id_index, AstArena, AstId, BiOpKind, Expr, LitKind, NodeKind};
use crate::ir::{self, ir_alloc, ir_arena_key, ir_arena_new, ir_items, IrArena, IrExpr, IrId, Kind, OpKind};

verus! {

/// The error of a lowering that meets an id that its arena does not hold.
#[derive(Debug, Clone, Copy, PartialEq, Eq, Structural)]
pub enum LoweringError {
    MissingNode,
}

/// The operation of the intermediate representation for a binary operator.
pub open spec fn op_of(k: BiOpKind) -> OpKind {
    match k {
        BiOpKind::Add => OpKind::IAdd,
        BiOpKind::Sub => OpKind::ISub,
        BiOpKind::Mul => OpKind::IMul,
        BiOpKind::Div => OpKind::IDiv,
    }
}

/// What an expression lowers to: the same operations on the same operands, in
/// the same order, with every parenthesis removed.
pub open spec fn lower(e: Expr) -> IrExpr
    decreases e,
{
    match e {
        Expr::Lit(v) => IrExpr::IntValue(v),
        Expr::Paren(inner) => lower(*inner),
        Expr::BiOp(op, l, r) => IrExpr::Op(op_of(op), Box::new(lower(*l)), Box::new(lower(*r))),
    }
}

/// The state of one lowering: the syntax tree it reads and the arena it fills.
pub struct IrGen {
    ast_arena: AstArena,
    ir_arena: IrArena,
}

impl IrGen {
    /// `ir` extends `old_ir`: same key, and the old nodes are kept in front.
    pub open spec fn extends(old_ir: IrArena, ir: IrArena) -> bool {
        &&& ir_arena_key(ir) == ir_arena_key(old_ir)
        &&& ir_items(ir).len() >= ir_items(old_ir).len()
        &&& ir_items(old_ir) == ir_items(ir).subrange(0, ir_items(old_ir).len() as int)
    }

    fn new(ast_arena: AstArena) -> (r: Self)
        ensures
            r.ast_arena == ast_arena,
            ir_items(r.ir_arena) == Seq::<ir::Node>::empty(),
    {
        IrGen { ast_arena, ir_arena: ir_arena_new() }
    }

    fn new_node(&mut self, kind: Kind) -> (r: IrId)
        ensures
            final(self).ast_arena == old(self).ast_arena,
            ir_items(final(self).ir_arena) == ir_items(old(self).ir_arena).push(ir::Node { kind }),
            ir_arena_key(final(self).ir_arena) == ir_arena_key(old(self).ir_arena),
            ir::ir_id_index(r) == ir_items(old(self).ir_arena).len(),
            ir::ir_id_key(r) == ir_arena_key(old(self).ir_arena),
    {
        ir_alloc(&mut self.ir_arena, ir::Node { kind })
    }

    fn map_biop_kind(kind: &BiOpKind) -> (r: Result<OpKind, LoweringError>)
        ensures
            r == Ok::<OpKind, LoweringError>(op_of(*kind)),
    {
        match kind {
            BiOpKind::Add => Ok(OpKind::IAdd),
            BiOpKind::Sub => Ok(OpKind::ISub),
            BiOpKind::Mul => Ok(OpKind::IMul),
            BiOpKind::Div => Ok(OpKind::IDiv),
        }
    }

    fn generate_impl(&mut self, root: AstId) -> (r: Result<IrId, LoweringError>)
        requires
            ast::arena_wf(old(self).ast_arena),
            ir::arena_wf(old(self).ir_arena),
        ensures
            final(self).ast_arena == old(self).ast_arena,
            ir::arena_wf(final(self).ir_arena),
            Self::extends(old(self).ir_arena, final(self).ir_arena),
            r is Ok <==> ast::valid_id(old(self).ast_arena, root),
            r is Err ==> r == Err::<IrId, LoweringError>(LoweringError::MissingNode),
            r is Err ==> final(self).ir_arena == old(self).ir_arena,
            r is Ok ==> {
                let e = lower(ast::tree_of(old(self).ast_arena, root));
                let base = ir_items(old(self).ir_arena).len() as int;
                &&& ir::valid_id(final(self).ir_arena, r->Ok_0)
                &&& ir::tree_of(final(self).ir_arena, r->Ok_0) == e
                &&& ir_items(final(self).ir_arena).len() == base + ir::size(e)
                &&& ir::ir_id_index(r->Ok_0) == ir_items(final(self).ir_arena).len() - 1
                &&& ir::laid_out(ir_items(final(self).ir_arena), base, e)
            },
        decreases ast_id_index(root),
    {
        let kind: NodeKind = match ast_get(&self.ast_arena, root) {
            Some(n) => match &n.kind {
                NodeKind::Lit(LitKind::IntLit(v)) => NodeKind::Lit(LitKind::IntLit(*v)),
                NodeKind::Paren(e) => NodeKind::Paren(*e),
                NodeKind::BiOp(op, l, r) => NodeKind::BiOp(*op, *l, *r),
            },
            None => {
                assert(ir_items(self.ir_arena) =~= ir_items(self.ir_arena).subrange(
                    0,
                    ir_items(self.ir_arena).len() as int,
                ));
                return Err(LoweringError::MissingNode);
            },
        };
        let ghost ast_nodes = ast::ast_items(self.ast_arena);
        let ghost i = ast_id_index(root) as int;
        assert(ast::node_wf(ast_nodes[i], ast::ast_arena_key(self.ast_arena), i));
        match kind {
            NodeKind::Lit(LitKind::IntLit(v)) => {
                let ghost before = self.ir_arena;
                let id = self.new_node(Kind::IntValue(v));
                proof {
                    assert(ir_items(before) =~= ir_items(self.ir_arena).subrange(
                        0,
                        ir_items(before).len() as int,
                    ));
                    self.lemma_push_wf(before);
                }
                Ok(id)
            },
            NodeKind::Paren(e) => self.generate_impl(e),
            NodeKind::BiOp(op, lhs, rhs) => {
                let op_kind = Self::map_biop_kind(&op)?;
                let ghost start = self.ir_arena;
                let lhs_id = self.generate_impl(lhs)?;
                let ghost mid = self.ir_arena;
                let rhs_id = self.generate_impl(rhs)?;
                let ghost before = self.ir_arena;
                let mut args: Vec<IrId> = Vec::new();
                args.push(lhs_id);
                args.push(rhs_id);
                let id = self.new_node(Kind::Op(op_kind, args));
                proof {
                    let nodes = ir_items(self.ir_arena);
                    assert(ir_items(before) =~= nodes.subrange(0, ir_items(before).len() as int));
                    assert(ir_items(mid) =~= nodes.subrange(0, ir_items(mid).len() as int));
                    assert(ir_items(start) =~= nodes.subrange(0, ir_items(start).len() as int));
                    self.lemma_push_wf(before);
                    ir::lemma_tree_at_prefix(
                        ir_items(mid),
                        nodes,
                        ir::ir_id_index(lhs_id) as int,
                    );
                    ir::lemma_tree_at_prefix(
                        ir_items(before),
                        nodes,
                        ir::ir_id_index(rhs_id) as int,
                    );
                    let base = ir_items(start).len() as int;
                    let l = lower(ast::tree_of(self.ast_arena, lhs));
                    let r = lower(ast::tree_of(self.ast_arena, rhs));
                    ir::lemma_laid_out_prefix(ir_items(mid), nodes, base, l);
                    ir::lemma_laid_out_prefix(ir_items(before), nodes, base + ir::size(l), r);
                    assert(ir::laid_out(nodes, base, IrExpr::Op(op_of(op), Box::new(l), Box::new(r))));
                }
                Ok(id)
            },
        }
    }

    /// Pushing a node whose operands were allocated before it keeps the arena
    /// well formed.
    proof fn lemma_push_wf(&self, before: IrArena)
        requires
            ir::arena_wf(before),
            ir_arena_key(self.ir_arena) == ir_arena_key(before),
            ir_items(self.ir_arena).len() == ir_items(before).len() + 1,
            ir_items(before) == ir_items(self.ir_arena).subrange(0, ir_items(before).len() as int),
            ir::node_wf(
                ir_items(self.ir_arena).last(),
                ir_arena_key(before),
                ir_items(before).len() as int,
            ),
        ensures
            ir::arena_wf(self.ir_arena),
    {
        let nodes = ir_items(self.ir_arena);
        assert forall|j: int| 0 <= j < nodes.len() implies #[trigger] ir::node_wf(
            nodes[j],
            ir_arena_key(self.ir_arena),
            j,
        ) by {
            if j < ir_items(before).len() {
                assert(nodes[j] == ir_items(before)[j]);
            }
        }
    }
}

/// `r` is the lowering of the expression at `root`: a well-formed arena that
/// holds the lowered tree in post order, left operand first, root last.
pub open spec fn lowered_as(ast_arena: AstArena, root: AstId, r: (IrArena, IrId)) -> bool {
    let (ir_arena, ir_root) = r;
    let e = lower(ast::tree_of(ast_arena, root));
    &&& ir::arena_wf(ir_arena)
    &&& ir::valid_id(ir_arena, ir_root)
    &&& ir::tree_of(ir_arena, ir_root) == e
    &&& ir_items(ir_arena).len() == ir::size(e)
    &&& ir::ir_id_index(ir_root) == ir_items(ir_arena).len() - 1
    &&& ir::laid_out(ir_items(ir_arena), 0, e)
}

/// Lowering is a function of the tree: two lowerings of one expression give
/// arenas of one length, with the same node at each position (ids compared by
/// position) and the root at the same position.
pub proof fn lemma_lowering_deterministic(
    ast_arena: AstArena,
    root: AstId,
    r1: (IrArena, IrId),
    r2: (IrArena, IrId),
)
    requires
        lowered_as(ast_arena, root, r1),
        lowered_as(ast_arena, root, r2),
    ensures
        ir_items(r1.0).len() == ir_items(r2.0).len(),
        forall|j: int| 0 <= j < ir_items(r1.0).len() ==> ir::same_shape(
            #[trigger] ir_items(r1.0)[j],
            ir_items(r2.0)[j],
        ),
        ir::ir_id_index(r1.1) == ir::ir_id_index(r2.1),
{
    let e = lower(ast::tree_of(ast_arena, root));
    assert forall|j: int| 0 <= j < ir_items(r1.0).len() implies ir::same_shape(
        #[trigger] ir_items(r1.0)[j],
        ir_items(r2.0)[j],
    ) by {
        ir::lemma_layout_unique(ir_items(r1.0), ir_items(r2.0), 0, e, j);
    }
}

/// Lowers the expression at `root` into a new arena of the intermediate
/// representation, and returns that arena with the id of the lowered root.
/// The nodes are laid out in post order, left operand first, the root last.
///
/// Lowering recurses once per level of nesting of the syntax tree, so a deeply
/// nested tree (long chains of operators included) can exhaust the stack.
pub fn generate(ast_arena: AstArena, root: AstId) -> (r: Result<(IrArena, IrId), LoweringError>)
    requires
        ast::arena_wf(ast_arena),
    ensures
        r is Ok <==> ast::valid_id(ast_arena, root),
        r is Err ==> r == Err::<(IrArena, IrId), LoweringError>(LoweringError::MissingNode),
        r is Ok ==> lowered_as(ast_arena, root, r->Ok_0),
{
    let mut irgen = IrGen::new(ast_arena);
    let ir = irgen.generate_impl(root)?;
    Ok((irgen.ir_arena, ir))
}

} // verus!
