//! The order in which code generation computes the values of the intermediate
//! representation: operands before the operation, the left operand first.
use vstd::prelude::*;
use crate::ir::{self, ir_get, ir_id_index, size, IrArena, IrExpr, IrId, Kind, OpKind};
use crate::irgen::LoweringError;

verus! {

/// One value to compute. `Apply` names its operands by the positions of the
/// steps that computed them.
#[derive(Debug, Clone, Copy, PartialEq, Eq, Structural)]
pub enum Step {
    Const(i64),
    Apply(OpKind, usize, usize),
}

/// The steps that compute `e` in post order, when the first of them stands at
/// position `base`; the last step computes `e` itself.
pub open spec fn steps_of(e: IrExpr, base: int) -> Seq<Step>
    decreases e,
{
    match e {
        IrExpr::IntValue(v) => seq![Step::Const(v)],
        IrExpr::Op(op, l, r) => steps_of(*l, base) + steps_of(*r, base + size(*l)) + seq![
            Step::Apply(
                op,
                (base + size(*l) - 1) as usize,
                (base + size(*l) + size(*r) - 1) as usize,
            ),
        ],
    }
}

pub proof fn lemma_steps_len(e: IrExpr, base: int)
    ensures
        steps_of(e, base).len() == size(e),
    decreases e,
{
    match e {
        IrExpr::IntValue(_) => {},
        IrExpr::Op(_, l, r) => {
            lemma_steps_len(*l, base);
            lemma_steps_len(*r, base + size(*l));
        },
    }
}

fn push_steps(arena: &IrArena, id: IrId, out: &mut Vec<Step>)
    requires
        ir::arena_wf(*arena),
        ir::valid_id(*arena, id),
    ensures
        final(out)@ == old(out)@ + steps_of(ir::tree_of(*arena, id), old(out)@.len() as int),
    decreases ir_id_index(id),
{
    let ghost nodes = ir::ir_items(*arena);
    let ghost i = ir_id_index(id) as int;
    assert(ir::node_wf(nodes[i], ir::ir_arena_key(*arena), i));
    let node = match ir_get(arena, id) {
        Some(n) => n,
        None => {
            return;
        },
    };
    match &node.kind {
        Kind::IntValue(v) => {
            out.push(Step::Const(*v));
            assert(out@ =~= old(out)@ + seq![Step::Const(*v)]);
        },
        Kind::Op(op, args) => {
            let ghost l = ir::tree_at(nodes, ir_id_index(args@[0]) as int);
            let ghost r = ir::tree_at(nodes, ir_id_index(args@[1]) as int);
            let ghost base = out@.len() as int;
            push_steps(arena, args[0], out);
            proof {
                lemma_steps_len(l, base);
            }
            let lhs = out.len() - 1;
            push_steps(arena, args[1], out);
            proof {
                lemma_steps_len(r, base + size(l));
            }
            let rhs = out.len() - 1;
            out.push(Step::Apply(*op, lhs, rhs));
            assert(out@ =~= old(out)@ + steps_of(ir::tree_of(*arena, id), base));
        },
    }
}

/// The steps that compute the value of `root`, in post order.
pub fn schedule(arena: &IrArena, root: IrId) -> (r: Result<Vec<Step>, LoweringError>)
    requires
        ir::arena_wf(*arena),
    ensures
        r is Ok <==> ir::valid_id(*arena, root),
        r is Ok ==> r->Ok_0@ == steps_of(ir::tree_of(*arena, root), 0),
        r is Err ==> r == Err::<Vec<Step>, LoweringError>(LoweringError::MissingNode),
{
    if ir_get(arena, root).is_none() {
        return Err(LoweringError::MissingNode);
    }
    let mut out: Vec<Step> = Vec::new();
    push_steps(arena, root, &mut out);
    assert(out@ =~= steps_of(ir::tree_of(*arena, root), 0));
    Ok(out)
}

} // verus!
