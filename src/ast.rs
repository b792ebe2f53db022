//! The syntax tree: nodes stored in an `id_arena` arena and referring to each
//! other by id, and the tree that a node stands for.
use vstd::prelude::*;

verus! {

#[derive(Debug, Clone, PartialEq)]
pub enum LitKind {
    IntLit(i64),
}

#[derive(Debug, Clone, Copy, PartialEq, Eq, Structural)]
pub enum BiOpKind {
    Add,
    Sub,
    Mul,
    Div,
}

/// Type parameter of the syntax tree's ids.
#[derive(Debug, Clone, Copy, PartialEq, Eq)]
pub struct AstMark;

pub type AstId = id_arena::Id<AstMark>;

pub type AstArena = id_arena::Arena<Node, id_arena::DefaultArenaBehavior<AstMark>>;

#[derive(Debug, PartialEq)]
pub enum NodeKind {
    Lit(LitKind),
    Paren(AstId),
    BiOp(BiOpKind, AstId, AstId),
}

#[derive(Debug, PartialEq)]
pub struct Node {
    pub kind: NodeKind,
}

impl Clone for NodeKind {
    fn clone(&self) -> (r: Self)
        ensures
            r == *self,
    {
        match self {
            NodeKind::Lit(LitKind::IntLit(v)) => NodeKind::Lit(LitKind::IntLit(*v)),
            NodeKind::Paren(e) => NodeKind::Paren(*e),
            NodeKind::BiOp(op, l, r) => NodeKind::BiOp(*op, *l, *r),
        }
    }
}

impl Clone for Node {
    fn clone(&self) -> (r: Self)
        ensures
            r == *self,
    {
        Node { kind: self.kind.clone() }
    }
}

/// The expression that a node of the syntax tree stands for.
pub enum Expr {
    Lit(i64),
    Paren(Box<Expr>),
    BiOp(BiOpKind, Box<Expr>, Box<Expr>),
}

/// The nodes of an arena, in the order of allocation.
pub uninterp spec fn ast_items(a: AstArena) -> Seq<Node>;

/// The key that tells an arena's ids from those of other arenas.
pub uninterp spec fn ast_arena_key(a: AstArena) -> u32;

/// The position in its arena that an id points to.
pub uninterp spec fn ast_id_index(i: AstId) -> usize;

/// The key of the arena that an id was handed out by.
pub uninterp spec fn ast_id_key(i: AstId) -> u32;

/// Relies on id_arena::Arena::new: an arena without nodes.
#[verifier::external_body]
pub(crate) fn ast_arena_new() -> (r: AstArena)
    ensures
        ast_items(r) == Seq::<Node>::empty(),
{
    id_arena::Arena::new()
}

/// Relies on id_arena::Arena::alloc: pushes the node and returns an id made
/// of the arena's key and the node's position.
#[verifier::external_body]
pub(crate) fn ast_alloc(a: &mut AstArena, n: Node) -> (r: AstId)
    ensures
        ast_items(*final(a)) == ast_items(*old(a)).push(n),
        ast_arena_key(*final(a)) == ast_arena_key(*old(a)),
        ast_id_index(r) == ast_items(*old(a)).len(),
        ast_id_key(r) == ast_arena_key(*old(a)),
{
    a.alloc(n)
}

/// Relies on id_arena::Arena::get: the node at the id's position when the id's
/// key is the arena's and the position is taken, else `None`.
#[verifier::external_body]
pub(crate) fn ast_get(a: &AstArena, id: AstId) -> (r: Option<&Node>)
    ensures
        r == (if valid_id(*a, id) {
            Some(&ast_items(*a)[ast_id_index(id) as int])
        } else {
            None::<&Node>
        }),
{
    a.get(id)
}

/// The id points to a node of the arena.
pub open spec fn valid_id(a: AstArena, id: AstId) -> bool {
    ast_id_key(id) == ast_arena_key(a) && ast_id_index(id) < ast_items(a).len()
}

/// An id held by the node at position `i` points to a node allocated before it.
pub open spec fn earlier(key: u32, i: int, id: AstId) -> bool {
    ast_id_key(id) == key && ast_id_index(id) < i
}

pub open spec fn node_wf(n: Node, key: u32, i: int) -> bool {
    match n.kind {
        NodeKind::Lit(_) => true,
        NodeKind::Paren(e) => earlier(key, i, e),
        NodeKind::BiOp(_, l, r) => earlier(key, i, l) && earlier(key, i, r),
    }
}

/// Every node refers only to nodes allocated before it in the same arena.
pub open spec fn nodes_wf(nodes: Seq<Node>, key: u32) -> bool {
    forall|i: int| 0 <= i < nodes.len() ==> #[trigger] node_wf(nodes[i], key, i)
}

pub open spec fn arena_wf(a: AstArena) -> bool {
    nodes_wf(ast_items(a), ast_arena_key(a))
}

/// The expression that the node at position `i` stands for.
pub open spec fn tree_at(nodes: Seq<Node>, i: int) -> Expr
    decreases i,
{
    if 0 <= i < nodes.len() {
        match nodes[i].kind {
            NodeKind::Lit(LitKind::IntLit(v)) => Expr::Lit(v),
            NodeKind::Paren(e) => {
                if ast_id_index(e) < i {
                    Expr::Paren(Box::new(tree_at(nodes, ast_id_index(e) as int)))
                } else {
                    Expr::Lit(0)
                }
            },
            NodeKind::BiOp(op, l, r) => {
                if ast_id_index(l) < i && ast_id_index(r) < i {
                    Expr::BiOp(
                        op,
                        Box::new(tree_at(nodes, ast_id_index(l) as int)),
                        Box::new(tree_at(nodes, ast_id_index(r) as int)),
                    )
                } else {
                    Expr::Lit(0)
                }
            },
        }
    } else {
        Expr::Lit(0)
    }
}

/// The expression that an id of the arena stands for.
pub open spec fn tree_of(a: AstArena, id: AstId) -> Expr {
    tree_at(ast_items(a), ast_id_index(id) as int)
}

/// Appending nodes leaves what the earlier nodes stand for unchanged.
pub proof fn lemma_tree_at_prefix(nodes: Seq<Node>, more: Seq<Node>, i: int)
    requires
        0 <= i < nodes.len(),
        more.len() >= nodes.len(),
        nodes == more.subrange(0, nodes.len() as int),
    ensures
        tree_at(more, i) == tree_at(nodes, i),
    decreases i,
{
    assert(more[i] == nodes[i]);
    match nodes[i].kind {
        NodeKind::Lit(_) => {},
        NodeKind::Paren(e) => {
            if ast_id_index(e) < i {
                lemma_tree_at_prefix(nodes, more, ast_id_index(e) as int);
            }
        },
        NodeKind::BiOp(_, l, r) => {
            if ast_id_index(l) < i && ast_id_index(r) < i {
                lemma_tree_at_prefix(nodes, more, ast_id_index(l) as int);
                lemma_tree_at_prefix(nodes, more, ast_id_index(r) as int);
            }
        },
    }
}

} // verus!

verus! {

/// `b` holds the nodes of `a` in front, under the same key.
pub open spec fn extends(a: AstArena, b: AstArena) -> bool {
    &&& ast_arena_key(b) == ast_arena_key(a)
    &&& ast_items(b).len() >= ast_items(a).len()
    &&& ast_items(a) == ast_items(b).subrange(0, ast_items(a).len() as int)
}

pub proof fn lemma_extends_refl(a: AstArena)
    ensures
        extends(a, a),
{
    assert(ast_items(a) =~= ast_items(a).subrange(0, ast_items(a).len() as int));
}

pub proof fn lemma_extends_trans(a: AstArena, b: AstArena, c: AstArena)
    requires
        extends(a, b),
        extends(b, c),
    ensures
        extends(a, c),
{
    assert(ast_items(a) =~= ast_items(c).subrange(0, ast_items(a).len() as int));
}

/// An id of an arena keeps its node and its expression in every extension.
pub proof fn lemma_extends_keeps(a: AstArena, b: AstArena, id: AstId)
    requires
        extends(a, b),
        valid_id(a, id),
    ensures
        valid_id(b, id),
        tree_of(b, id) == tree_of(a, id),
{
    lemma_tree_at_prefix(ast_items(a), ast_items(b), ast_id_index(id) as int);
}

/// Pushing a node that refers only to earlier nodes keeps the arena well formed.
pub proof fn lemma_push_wf(a: AstArena, b: AstArena, n: Node)
    requires
        arena_wf(a),
        ast_arena_key(b) == ast_arena_key(a),
        ast_items(b) == ast_items(a).push(n),
        node_wf(n, ast_arena_key(a), ast_items(a).len() as int),
    ensures
        arena_wf(b),
        extends(a, b),
{
    assert(ast_items(a) =~= ast_items(b).subrange(0, ast_items(a).len() as int));
    assert forall|j: int| 0 <= j < ast_items(b).len() implies #[trigger] node_wf(
        ast_items(b)[j],
        ast_arena_key(b),
        j,
    ) by {
        if j < ast_items(a).len() {
            assert(ast_items(b)[j] == ast_items(a)[j]);
        }
    }
}

} // verus!

verus! {

/// The number of nodes of a tree: one for each production.
pub open spec fn count(e: Expr) -> nat
    decreases e,
{
    match e {
        Expr::Lit(_) => 1,
        Expr::Paren(x) => count(*x) + 1,
        Expr::BiOp(_, l, r) => count(*l) + count(*r) + 1,
    }
}

/// `nodes` holds the tree `e` in post order from position `base` on: the
/// operands' nodes first, the left one's before the right one's, then the
/// node of `e` itself at `base + count(e) - 1`.
pub open spec fn laid_out(nodes: Seq<Node>, base: int, e: Expr) -> bool
    decreases e,
{
    0 <= base && base + count(e) <= nodes.len() && match e {
        Expr::Lit(v) => nodes[base].kind == NodeKind::Lit(LitKind::IntLit(v)),
        Expr::Paren(x) => {
            let top = base + count(*x);
            &&& laid_out(nodes, base, *x)
            &&& nodes[top].kind is Paren
            &&& ast_id_index(nodes[top].kind->Paren_0) == top - 1
        },
        Expr::BiOp(op, l, r) => {
            let top = base + count(*l) + count(*r);
            &&& laid_out(nodes, base, *l)
            &&& laid_out(nodes, base + count(*l), *r)
            &&& nodes[top].kind is BiOp
            &&& nodes[top].kind->BiOp_0 == op
            &&& ast_id_index(nodes[top].kind->BiOp_1) == base + count(*l) - 1
            &&& ast_id_index(nodes[top].kind->BiOp_2) == top - 1
        },
    }
}

/// A layout stays in place when nodes are appended.
pub proof fn lemma_laid_out_prefix(nodes: Seq<Node>, more: Seq<Node>, base: int, e: Expr)
    requires
        laid_out(nodes, base, e),
        more.len() >= nodes.len(),
        nodes == more.subrange(0, nodes.len() as int),
    ensures
        laid_out(more, base, e),
    decreases e,
{
    match e {
        Expr::Lit(_) => {
            assert(more[base] == nodes[base]);
        },
        Expr::Paren(x) => {
            assert(more[base + count(*x)] == nodes[base + count(*x)]);
            lemma_laid_out_prefix(nodes, more, base, *x);
        },
        Expr::BiOp(_, l, r) => {
            let top = base + count(*l) + count(*r);
            assert(more[top] == nodes[top]);
            lemma_laid_out_prefix(nodes, more, base, *l);
            lemma_laid_out_prefix(nodes, more, base + count(*l), *r);
        },
    }
}

} // verus!
