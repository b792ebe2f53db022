//! The intermediate representation: nodes stored in an `id_arena` arena, where
//! an operation lists its operands by id, and the tree that a node stands for.
use vstd::prelude::*;

verus! {

#[derive(Debug, Clone, Copy, PartialEq, Eq, Structural)]
pub enum OpKind {
    IAdd,
    ISub,
    IMul,
    IDiv,
}

/// Type parameter of the intermediate representation's ids.
#[derive(Debug, Clone, Copy, PartialEq, Eq)]
pub struct IrMark;

pub type IrId = id_arena::Id<IrMark>;

pub type IrArena = id_arena::Arena<Node, id_arena::DefaultArenaBehavior<IrMark>>;

#[derive(Debug, Clone, PartialEq)]
pub enum Kind {
    IntValue(i64),
    Op(OpKind, Vec<IrId>),
}

#[derive(Debug, Clone, PartialEq)]
pub struct Node {
    pub kind: Kind,
}

/// The expression that a node of the intermediate representation stands for.
/// Every operation is binary.
pub enum IrExpr {
    IntValue(i64),
    Op(OpKind, Box<IrExpr>, Box<IrExpr>),
}

/// The nodes of an arena, in the order of allocation.
pub uninterp spec fn ir_items(a: IrArena) -> Seq<Node>;

/// The key that tells an arena's ids from those of other arenas.
pub uninterp spec fn ir_arena_key(a: IrArena) -> u32;

/// The position in its arena that an id points to.
pub uninterp spec fn ir_id_index(i: IrId) -> usize;

/// The key of the arena that an id was handed out by.
pub uninterp spec fn ir_id_key(i: IrId) -> u32;

/// Relies on id_arena::Arena::new: an arena without nodes.
#[verifier::external_body]
pub(crate) fn ir_arena_new() -> (r: IrArena)
    ensures
        ir_items(r) == Seq::<Node>::empty(),
{
    id_arena::Arena::new()
}

/// Relies on id_arena::Arena::alloc: pushes the node and returns an id made
/// of the arena's key and the node's position.
#[verifier::external_body]
pub(crate) fn ir_alloc(a: &mut IrArena, n: Node) -> (r: IrId)
    ensures
        ir_items(*final(a)) == ir_items(*old(a)).push(n),
        ir_arena_key(*final(a)) == ir_arena_key(*old(a)),
        ir_id_index(r) == ir_items(*old(a)).len(),
        ir_id_key(r) == ir_arena_key(*old(a)),
{
    a.alloc(n)
}

/// Relies on id_arena::Arena::get: the node at the id's position when the id's
/// key is the arena's and the position is taken, else `None`.
#[verifier::external_body]
pub(crate) fn ir_get(a: &IrArena, id: IrId) -> (r: Option<&Node>)
    ensures
        r == (if valid_id(*a, id) {
            Some(&ir_items(*a)[ir_id_index(id) as int])
        } else {
            None::<&Node>
        }),
{
    a.get(id)
}

/// The id points to a node of the arena.
pub open spec fn valid_id(a: IrArena, id: IrId) -> bool {
    ir_id_key(id) == ir_arena_key(a) && ir_id_index(id) < ir_items(a).len()
}

/// An id held by the node at position `i` points to a node allocated before it.
pub open spec fn earlier(key: u32, i: int, id: IrId) -> bool {
    ir_id_key(id) == key && ir_id_index(id) < i
}

/// An operation has two operands, each allocated before it in the same arena.
pub open spec fn node_wf(n: Node, key: u32, i: int) -> bool {
    match n.kind {
        Kind::IntValue(_) => true,
        Kind::Op(_, args) => args@.len() == 2 && earlier(key, i, args@[0]) && earlier(
            key,
            i,
            args@[1],
        ),
    }
}

pub open spec fn nodes_wf(nodes: Seq<Node>, key: u32) -> bool {
    forall|i: int| 0 <= i < nodes.len() ==> #[trigger] node_wf(nodes[i], key, i)
}

pub open spec fn arena_wf(a: IrArena) -> bool {
    nodes_wf(ir_items(a), ir_arena_key(a))
}

/// The expression that the node at position `i` stands for.
pub open spec fn tree_at(nodes: Seq<Node>, i: int) -> IrExpr
    decreases i,
{
    if 0 <= i < nodes.len() {
        match nodes[i].kind {
            Kind::IntValue(v) => IrExpr::IntValue(v),
            Kind::Op(op, args) => {
                if args@.len() == 2 && ir_id_index(args@[0]) < i && ir_id_index(args@[1]) < i {
                    IrExpr::Op(
                        op,
                        Box::new(tree_at(nodes, ir_id_index(args@[0]) as int)),
                        Box::new(tree_at(nodes, ir_id_index(args@[1]) as int)),
                    )
                } else {
                    IrExpr::IntValue(0)
                }
            },
        }
    } else {
        IrExpr::IntValue(0)
    }
}

/// The expression that an id of the arena stands for.
pub open spec fn tree_of(a: IrArena, id: IrId) -> IrExpr {
    tree_at(ir_items(a), ir_id_index(id) as int)
}

/// Appending nodes leaves what the earlier nodes stand for unchanged.
pub proof fn lemma_tree_at_prefix(nodes: Seq<Node>, more: Seq<Node>, i: int)
    requires
        0 <= i < nodes.len(),
        more.len() >= nodes.len(),
        nodes == more.subrange(0, nodes.len() as int),
    ensures
        tree_at(more, i) == tree_at(nodes, i),
    decreases i,
{
    assert(more[i] == nodes[i]);
    match nodes[i].kind {
        Kind::IntValue(_) => {},
        Kind::Op(_, args) => {
            if args@.len() == 2 && ir_id_index(args@[0]) < i && ir_id_index(args@[1]) < i {
                lemma_tree_at_prefix(nodes, more, ir_id_index(args@[0]) as int);
                lemma_tree_at_prefix(nodes, more, ir_id_index(args@[1]) as int);
            }
        },
    }
}

/// The number of nodes of a tree.
pub open spec fn size(e: IrExpr) -> nat
    decreases e,
{
    match e {
        IrExpr::IntValue(_) => 1,
        IrExpr::Op(_, l, r) => size(*l) + size(*r) + 1,
    }
}

/// `nodes` holds the tree `e` in post order from position `base` on: the
/// operands' nodes first, the left one's before the right one's, then the
/// node of `e` itself at `base + size(e) - 1`.
pub open spec fn laid_out(nodes: Seq<Node>, base: int, e: IrExpr) -> bool
    decreases e,
{
    0 <= base && base + size(e) <= nodes.len() && match e {
        IrExpr::IntValue(v) => nodes[base].kind == Kind::IntValue(v),
        IrExpr::Op(op, l, r) => {
            let top = base + size(*l) + size(*r);
            &&& laid_out(nodes, base, *l)
            &&& laid_out(nodes, base + size(*l), *r)
            &&& nodes[top].kind is Op
            &&& nodes[top].kind->Op_0 == op
            &&& nodes[top].kind->Op_1@.len() == 2
            &&& ir_id_index(nodes[top].kind->Op_1@[0]) == base + size(*l) - 1
            &&& ir_id_index(nodes[top].kind->Op_1@[1]) == top - 1
        },
    }
}

/// A layout stays in place when nodes are appended.
pub proof fn lemma_laid_out_prefix(nodes: Seq<Node>, more: Seq<Node>, base: int, e: IrExpr)
    requires
        laid_out(nodes, base, e),
        more.len() >= nodes.len(),
        nodes == more.subrange(0, nodes.len() as int),
    ensures
        laid_out(more, base, e),
    decreases e,
{
    match e {
        IrExpr::IntValue(_) => {
            assert(more[base] == nodes[base]);
        },
        IrExpr::Op(_, l, r) => {
            let top = base + size(*l) + size(*r);
            assert(more[top] == nodes[top]);
            lemma_laid_out_prefix(nodes, more, base, *l);
            lemma_laid_out_prefix(nodes, more, base + size(*l), *r);
        },
    }
}

/// Two nodes agree but for the arena that their ids belong to.
pub open spec fn same_shape(a: Node, b: Node) -> bool {
    match (a.kind, b.kind) {
        (Kind::IntValue(x), Kind::IntValue(y)) => x == y,
        (Kind::Op(p, xs), Kind::Op(q, ys)) => {
            &&& p == q
            &&& xs@.len() == ys@.len()
            &&& forall|k: int| 0 <= k < xs@.len() ==> ir_id_index(#[trigger] xs@[k]) == ir_id_index(ys@[k])
        },
        _ => false,
    }
}

/// Two layouts of one tree from one position agree node by node.
pub proof fn lemma_layout_unique(a: Seq<Node>, b: Seq<Node>, base: int, e: IrExpr, j: int)
    requires
        laid_out(a, base, e),
        laid_out(b, base, e),
        base <= j < base + size(e),
    ensures
        same_shape(a[j], b[j]),
    decreases e,
{
    match e {
        IrExpr::IntValue(_) => {},
        IrExpr::Op(_, l, r) => {
            let top = base + size(*l) + size(*r);
            if j < base + size(*l) {
                lemma_layout_unique(a, b, base, *l, j);
            } else if j < top {
                lemma_layout_unique(a, b, base + size(*l), *r, j);
            } else {
                let xs = a[top].kind->Op_1@;
                let ys = b[top].kind->Op_1@;
                assert forall|k: int| 0 <= k < xs.len() implies ir_id_index(#[trigger] xs[k])
                    == ir_id_index(ys[k]) by {
                    assert(k == 0 || k == 1);
                }
            }
        },
    }
}

} // verus!
