//! The parser: source text to a syntax tree in a new arena.
//!
//! The grammar, by precedence levels (whitespace may stand between tokens):
//!
//! ```text
//! expr   := term (("+" | "-") term)*
//! term   := factor (("*" | "/") factor)*
//! factor := INTEGER | "(" expr ")"
//! ```
//!
//! Both binary levels associate to the left. An integer literal above
//! `i64::MAX` is rejected.
use vstd::prelude::*;
use vstd::string::StringSliceAdditionalSpecFns;
use crate::ast::{self, ast_alloc, ast_arena_key, ast_items, AstArena, AstId, BiOpKind, Expr, LitKind, Node, NodeKind};

verus! {

/// Space, tab, carriage return or line feed.
pub open spec fn is_space(b: u8) -> bool {
    b == 32 || b == 9 || b == 13 || b == 10
}

pub open spec fn is_digit(b: u8) -> bool {
    48 <= b <= 57
}

/// The first position at or after `p` that holds no whitespace.
pub open spec fn skip_ws(s: Seq<u8>, p: int) -> int
    decreases s.len() - p,
{
    if 0 <= p < s.len() && is_space(s[p]) {
        skip_ws(s, p + 1)
    } else {
        p
    }
}

/// The first position at or after `p` that holds no digit.
pub open spec fn digits_end(s: Seq<u8>, p: int) -> int
    decreases s.len() - p,
{
    if 0 <= p < s.len() && is_digit(s[p]) {
        digits_end(s, p + 1)
    } else {
        p
    }
}

/// The decimal number written by the digits `s[p..e]`.
pub open spec fn digits_value(s: Seq<u8>, p: int, e: int) -> int
    decreases e - p,
{
    if e <= p {
        0
    } else {
        digits_value(s, p, e - 1) * 10 + (s[e - 1] - 48)
    }
}

/// The operator of the additive level that a byte writes.
pub open spec fn additive(b: u8) -> Option<BiOpKind> {
    if b == 43 {
        Some(BiOpKind::Add)
    } else if b == 45 {
        Some(BiOpKind::Sub)
    } else {
        None
    }
}

/// The operator of the multiplicative level that a byte writes.
pub open spec fn multiplicative(b: u8) -> Option<BiOpKind> {
    if b == 42 {
        Some(BiOpKind::Mul)
    } else if b == 47 {
        Some(BiOpKind::Div)
    } else {
        None
    }
}

/// A factor starting at `p`: the expression and the position after it.
pub open spec fn p_factor(s: Seq<u8>, p: int) -> Option<(Expr, int)>
    decreases s.len() - p, 0int,
{
    let q = skip_ws(s, p);
    if 0 <= p <= q < s.len() && is_digit(s[q]) {
        let e = digits_end(s, q);
        let v = digits_value(s, q, e);
        if v <= i64::MAX {
            Some((Expr::Lit(v as i64), e))
        } else {
            None
        }
    } else if 0 <= p <= q < s.len() && s[q] == 40 {
        match p_expr(s, q + 1) {
            Some((inner, r)) => {
                let t = skip_ws(s, r);
                if 0 <= t < s.len() && s[t] == 41 {
                    Some((Expr::Paren(Box::new(inner)), t + 1))
                } else {
                    None
                }
            },
            None => None,
        }
    } else {
        None
    }
}

/// The factors that follow `acc` at `q` on the multiplicative level, folded to
/// the left onto `acc`.
pub open spec fn term_rest(s: Seq<u8>, acc: Expr, q: int) -> Option<(Expr, int)>
    decreases s.len() - q, 1int,
{
    let t = skip_ws(s, q);
    if 0 <= q <= t < s.len() && multiplicative(s[t]) is Some {
        match p_factor(s, t + 1) {
            Some((f, r)) => {
                if q < r <= s.len() {
                    term_rest(
                        s,
                        Expr::BiOp(multiplicative(s[t])->Some_0, Box::new(acc), Box::new(f)),
                        r,
                    )
                } else {
                    None
                }
            },
            None => None,
        }
    } else {
        Some((acc, q))
    }
}

/// A term starting at `p`: the expression and the position after it.
pub open spec fn p_term(s: Seq<u8>, p: int) -> Option<(Expr, int)>
    decreases s.len() - p, 2int,
{
    match p_factor(s, p) {
        Some((f, r)) => {
            if p < r <= s.len() {
                term_rest(s, f, r)
            } else {
                None
            }
        },
        None => None,
    }
}

/// The terms that follow `acc` at `q` on the additive level, folded to the left
/// onto `acc`.
pub open spec fn expr_rest(s: Seq<u8>, acc: Expr, q: int) -> Option<(Expr, int)>
    decreases s.len() - q, 3int,
{
    let t = skip_ws(s, q);
    if 0 <= q <= t < s.len() && additive(s[t]) is Some {
        match p_term(s, t + 1) {
            Some((f, r)) => {
                if q < r <= s.len() {
                    expr_rest(
                        s,
                        Expr::BiOp(additive(s[t])->Some_0, Box::new(acc), Box::new(f)),
                        r,
                    )
                } else {
                    None
                }
            },
            None => None,
        }
    } else {
        Some((acc, q))
    }
}

/// An expression starting at `p`: the expression and the position after it.
pub open spec fn p_expr(s: Seq<u8>, p: int) -> Option<(Expr, int)>
    decreases s.len() - p, 4int,
{
    match p_term(s, p) {
        Some((t, r)) => {
            if p < r <= s.len() {
                expr_rest(s, t, r)
            } else {
                None
            }
        },
        None => None,
    }
}

/// The expression that the whole of `s` writes, if it writes one.
pub open spec fn parse_spec(s: Seq<u8>) -> Option<Expr> {
    match p_expr(s, 0) {
        Some((e, q)) => {
            if skip_ws(s, q) == s.len() {
                Some(e)
            } else {
                None
            }
        },
        None => None,
    }
}

/// Each further digit multiplies the value by ten at least.
pub proof fn lemma_digits_grow(s: Seq<u8>, p: int, i: int, j: int)
    requires
        0 <= p <= i <= j <= s.len(),
        forall|k: int| p <= k < j ==> is_digit(#[trigger] s[k]),
    ensures
        0 <= digits_value(s, p, i) <= digits_value(s, p, j),
    decreases j - i,
{
    if p < j {
        lemma_digits_nonneg(s, p, j - 1);
    }
    if i < j {
        lemma_digits_grow(s, p, i, j - 1);
    }
}

pub proof fn lemma_digits_nonneg(s: Seq<u8>, p: int, e: int)
    requires
        0 <= p <= e <= s.len(),
        forall|k: int| p <= k < e ==> is_digit(#[trigger] s[k]),
    ensures
        0 <= digits_value(s, p, e),
    decreases e - p,
{
    if p < e {
        lemma_digits_nonneg(s, p, e - 1);
    }
}

/// `s` in parentheses.
pub open spec fn parenthesized(s: Seq<u8>) -> Seq<u8> {
    seq![40u8] + s + seq![41u8]
}

proof fn lemma_wrap_at(s: Seq<u8>, i: int)
    requires
        0 <= i <= s.len(),
    ensures
        i < s.len() ==> parenthesized(s)[i + 1] == s[i],
        i == s.len() ==> parenthesized(s)[i + 1] == 41,
        parenthesized(s).len() == s.len() + 2,
{
}

proof fn lemma_skip_ws(s: Seq<u8>, p: int)
    requires
        0 <= p <= s.len(),
    ensures
        p <= skip_ws(s, p) <= s.len(),
    decreases s.len() - p,
{
    if p < s.len() && is_space(s[p]) {
        lemma_skip_ws(s, p + 1);
    }
}

proof fn lemma_wrap_skip_ws(s: Seq<u8>, p: int)
    requires
        0 <= p <= s.len(),
    ensures
        skip_ws(parenthesized(s), p + 1) == skip_ws(s, p) + 1,
    decreases s.len() - p,
{
    lemma_wrap_at(s, p);
    if p < s.len() && is_space(s[p]) {
        lemma_wrap_skip_ws(s, p + 1);
    }
}

proof fn lemma_wrap_digits(s: Seq<u8>, p: int)
    requires
        0 <= p <= s.len(),
    ensures
        digits_end(parenthesized(s), p + 1) == digits_end(s, p) + 1,
    decreases s.len() - p,
{
    lemma_wrap_at(s, p);
    if p < s.len() && is_digit(s[p]) {
        lemma_wrap_digits(s, p + 1);
    }
}

proof fn lemma_wrap_value(s: Seq<u8>, p: int, e: int)
    requires
        0 <= p <= e <= s.len(),
    ensures
        digits_value(parenthesized(s), p + 1, e + 1) == digits_value(s, p, e),
    decreases e - p,
{
    if p < e {
        lemma_wrap_at(s, e - 1);
        lemma_wrap_value(s, p, e - 1);
    }
}

/// Where the result of a parse at `p` in `s` is some, the same parse one
/// byte further in `parenthesized(s)` has the same expression, one byte further.
pub open spec fn shifted(s: Seq<u8>, g: Option<(Expr, int)>, h: Option<(Expr, int)>) -> bool {
    g is Some ==> {
        &&& 0 <= g->Some_0.1 <= s.len()
        &&& h == Some((g->Some_0.0, g->Some_0.1 + 1))
    }
}

proof fn lemma_wrap_factor(s: Seq<u8>, p: int)
    requires
        0 <= p <= s.len(),
    ensures
        shifted(s, p_factor(s, p), p_factor(parenthesized(s), p + 1)),
    decreases s.len() - p, 0int,
{
    let w = parenthesized(s);
    let q = skip_ws(s, p);
    lemma_wrap_skip_ws(s, p);
    lemma_skip_ws(s, p);
    if p <= q < s.len() {
        lemma_wrap_at(s, q);
        if is_digit(s[q]) {
            lemma_wrap_digits(s, q);
            lemma_digits_end_bound(s, q);
            lemma_wrap_value(s, q, digits_end(s, q));
        } else if s[q] == 40 {
            lemma_wrap_expr(s, q + 1);
            if let Some((inner, r)) = p_expr(s, q + 1) {
                lemma_wrap_skip_ws(s, r);
                lemma_skip_ws(s, r);
                lemma_wrap_at(s, skip_ws(s, r));
            }
        }
    }
}

proof fn lemma_wrap_term_rest(s: Seq<u8>, acc: Expr, q: int)
    requires
        0 <= q <= s.len(),
    ensures
        shifted(s, term_rest(s, acc, q), term_rest(parenthesized(s), acc, q + 1)),
    decreases s.len() - q, 1int,
{
    let t = skip_ws(s, q);
    lemma_wrap_skip_ws(s, q);
    lemma_skip_ws(s, q);
    if q <= t < s.len() {
        lemma_wrap_at(s, t);
        if multiplicative(s[t]) is Some {
            lemma_wrap_factor(s, t + 1);
            if let Some((f, r)) = p_factor(s, t + 1) {
                if q < r <= s.len() {
                    lemma_wrap_term_rest(
                        s,
                        Expr::BiOp(multiplicative(s[t])->Some_0, Box::new(acc), Box::new(f)),
                        r,
                    );
                }
            }
        }
    } else {
        lemma_wrap_at(s, t);
    }
}

proof fn lemma_wrap_term(s: Seq<u8>, p: int)
    requires
        0 <= p <= s.len(),
    ensures
        shifted(s, p_term(s, p), p_term(parenthesized(s), p + 1)),
    decreases s.len() - p, 2int,
{
    lemma_wrap_factor(s, p);
    if let Some((f, r)) = p_factor(s, p) {
        if p < r <= s.len() {
            lemma_wrap_term_rest(s, f, r);
        }
    }
}

proof fn lemma_wrap_expr_rest(s: Seq<u8>, acc: Expr, q: int)
    requires
        0 <= q <= s.len(),
    ensures
        shifted(s, expr_rest(s, acc, q), expr_rest(parenthesized(s), acc, q + 1)),
    decreases s.len() - q, 3int,
{
    let t = skip_ws(s, q);
    lemma_wrap_skip_ws(s, q);
    lemma_skip_ws(s, q);
    if q <= t < s.len() {
        lemma_wrap_at(s, t);
        if additive(s[t]) is Some {
            lemma_wrap_term(s, t + 1);
            if let Some((f, r)) = p_term(s, t + 1) {
                if q < r <= s.len() {
                    lemma_wrap_expr_rest(
                        s,
                        Expr::BiOp(additive(s[t])->Some_0, Box::new(acc), Box::new(f)),
                        r,
                    );
                }
            }
        }
    } else {
        lemma_wrap_at(s, t);
    }
}

proof fn lemma_wrap_expr(s: Seq<u8>, p: int)
    requires
        0 <= p <= s.len(),
    ensures
        shifted(s, p_expr(s, p), p_expr(parenthesized(s), p + 1)),
    decreases s.len() - p, 4int,
{
    lemma_wrap_term(s, p);
    if let Some((t, r)) = p_term(s, p) {
        if p < r <= s.len() {
            lemma_wrap_expr_rest(s, t, r);
        }
    }
}

/// A source that writes an expression, put in parentheses, writes that
/// expression in parentheses.
pub proof fn lemma_parse_parenthesized(s: Seq<u8>)
    requires
        parse_spec(s) is Some,
    ensures
        parse_spec(parenthesized(s)) == Some(Expr::Paren(Box::new(parse_spec(s)->Some_0))),
{
    let w = parenthesized(s);
    let (e, q) = p_expr(s, 0)->Some_0;
    lemma_wrap_expr(s, 0);
    lemma_wrap_skip_ws(s, q);
    lemma_wrap_at(s, s.len() as int);
    lemma_wrap_skip_ws(s, s.len() as int);
    assert(w[0] == 40);
    assert(skip_ws(w, 0) == 0);
    let n = s.len() as int;
    assert(p_factor(w, 0) == Some((Expr::Paren(Box::new(e)), n + 2)));
    assert(term_rest(w, Expr::Paren(Box::new(e)), n + 2) == Some((Expr::Paren(Box::new(e)), n + 2)));
    assert(p_term(w, 0) == Some((Expr::Paren(Box::new(e)), n + 2)));
    assert(expr_rest(w, Expr::Paren(Box::new(e)), n + 2) == Some((Expr::Paren(Box::new(e)), n + 2)));
}

/// What a parse error points at.
#[derive(Debug, Clone, Copy, PartialEq, Eq, Structural)]
pub enum Expected {
    /// An integer literal or an opening parenthesis.
    Operand,
    /// A closing parenthesis.
    ClosingParen,
    /// Nothing more: the input should have ended.
    EndOfInput,
    /// A literal no greater than `i64::MAX`.
    SmallerLiteral,
}

/// The input is not an expression of the grammar: `offset` is the byte at which
/// the parser gave up, and `expected` what it wanted there.
#[derive(Debug, Clone, Copy, PartialEq, Eq, Structural)]
pub struct ParseError {
    pub offset: usize,
    pub expected: Expected,
}

/// The state of one parse: the arena that it fills. Every call of `parse` makes
/// its own.
pub struct Context {
    pub arena: AstArena,
}

fn skip_spaces(s: &[u8], p: usize) -> (r: usize)
    requires
        p <= s@.len(),
    ensures
        r == skip_ws(s@, p as int),
        p <= r <= s@.len(),
{
    let mut i: usize = p;
    while i < s.len() && (s[i] == 32 || s[i] == 9 || s[i] == 13 || s[i] == 10)
        invariant
            p <= i <= s@.len(),
            skip_ws(s@, p as int) == skip_ws(s@, i as int),
        decreases s@.len() - i,
    {
        i = i + 1;
    }
    i
}

/// Reads the literal whose first digit is at `q`.
fn int_lit(s: &[u8], q: usize) -> (r: Result<(i64, usize), ParseError>)
    requires
        q < s@.len(),
        is_digit(s@[q as int]),
    ensures
        ({
            let e = digits_end(s@, q as int);
            if digits_value(s@, q as int, e) <= i64::MAX {
                r == Ok::<(i64, usize), ParseError>(
                    (digits_value(s@, q as int, e) as i64, e as usize),
                )
            } else {
                r == Err::<(i64, usize), ParseError>(
                    ParseError { offset: q, expected: Expected::SmallerLiteral },
                )
            }
        }),
{
    let mut v: i64 = 0;
    let mut i: usize = q;
    while i < s.len() && 48 <= s[i] && s[i] <= 57
        invariant
            q <= i <= s@.len(),
            forall|k: int| q <= k < i ==> is_digit(#[trigger] s@[k]),
            digits_end(s@, q as int) == digits_end(s@, i as int),
            v == digits_value(s@, q as int, i as int),
            0 <= v,
        decreases s@.len() - i,
    {
        let d: i64 = (s[i] - 48) as i64;
        if v > 922337203685477580 || (v == 922337203685477580 && d > 7) {
            proof {
                let e = digits_end(s@, q as int);
                assert(digits_value(s@, q as int, i + 1) == v * 10 + d);
                assert(digits_end(s@, (i + 1) as int) == e);
                lemma_digits_end_bound(s@, (i + 1) as int);
                assert forall|k: int| q <= k < e implies is_digit(#[trigger] s@[k]) by {
                    if k > i {
                        lemma_digits_end_all(s@, (i + 1) as int, k);
                    }
                }
                lemma_digits_grow(s@, q as int, i + 1, e);
            }
            return Err(ParseError { offset: q, expected: Expected::SmallerLiteral });
        }
        v = v * 10 + d;
        i = i + 1;
    }
    Ok((v, i))
}

pub proof fn lemma_digits_end_bound(s: Seq<u8>, p: int)
    requires
        0 <= p <= s.len(),
    ensures
        p <= digits_end(s, p) <= s.len(),
    decreases s.len() - p,
{
    if p < s.len() && is_digit(s[p]) {
        lemma_digits_end_bound(s, p + 1);
    }
}

/// Every byte from `p` up to `digits_end(s, p)` is a digit.
pub proof fn lemma_digits_end_all(s: Seq<u8>, p: int, k: int)
    requires
        0 <= p <= k < digits_end(s, p),
    ensures
        is_digit(s[k]),
    decreases s.len() - p,
{
    if k > p {
        lemma_digits_end_all(s, p + 1, k);
    }
}

/// `r` is what a parser that meets grammar result `g` returns into arena `a`:
/// the position after the expression and the id of a node standing for it, or
/// an error where the grammar has no expression.
/// The error of a parse at `p` that fails at its first operand: the input
/// ends there, or holds neither a literal nor a parenthesis there, or a
/// literal above `i64::MAX`.
pub open spec fn first_error(s: Seq<u8>, p: int) -> Option<ParseError> {
    let q = skip_ws(s, p);
    if q >= s.len() {
        Some(ParseError { offset: s.len() as usize, expected: Expected::Operand })
    } else if is_digit(s[q]) {
        if digits_value(s, q, digits_end(s, q)) > i64::MAX {
            Some(ParseError { offset: q as usize, expected: Expected::SmallerLiteral })
        } else {
            None
        }
    } else if s[q] != 40 {
        Some(ParseError { offset: q as usize, expected: Expected::Operand })
    } else {
        None
    }
}

/// On success the new nodes start at `base`, one per production in post order,
/// with the expression's own node last.
pub open spec fn parsed_as(
    g: Option<(Expr, int)>,
    r: Result<(AstId, usize), ParseError>,
    a: AstArena,
    base: int,
) -> bool {
    match g {
        Some((e, q)) => {
            &&& r is Ok
            &&& r->Ok_0.1 == q
            &&& ast::valid_id(a, r->Ok_0.0)
            &&& ast::tree_of(a, r->Ok_0.0) == e
            &&& ast_items(a).len() == base + ast::count(e)
            &&& ast::ast_id_index(r->Ok_0.0) == ast_items(a).len() - 1
            &&& ast::laid_out(ast_items(a), base, e)
        },
        None => r is Err,
    }
}

impl Context {
    /// Allocates the node of one production.
    fn node(&mut self, kind: NodeKind) -> (r: AstId)
        requires
            ast::arena_wf(old(self).arena),
            ast::node_wf((Node { kind }), ast_arena_key(old(self).arena), ast_items(old(self).arena).len() as int),
        ensures
            ast::arena_wf(final(self).arena),
            ast::extends(old(self).arena, final(self).arena),
            ast_items(final(self).arena) == ast_items(old(self).arena).push((Node { kind })),
            ast::valid_id(final(self).arena, r),
            ast::ast_id_index(r) == ast_items(old(self).arena).len(),
    {
        let ghost before = self.arena;
        let r = ast_alloc(&mut self.arena, Node { kind });
        proof {
            ast::lemma_push_wf(before, self.arena, Node { kind });
        }
        r
    }
}

fn factor(s: &[u8], p: usize, ctx: &mut Context) -> (r: Result<(AstId, usize), ParseError>)
    requires
        p <= s@.len(),
        ast::arena_wf(old(ctx).arena),
    ensures
        ast::arena_wf(final(ctx).arena),
        ast::extends(old(ctx).arena, final(ctx).arena),
        parsed_as(p_factor(s@, p as int), r, final(ctx).arena, ast_items(old(ctx).arena).len() as int),
        first_error(s@, p as int) is Some ==> r == Err::<(AstId, usize), ParseError>(
            first_error(s@, p as int)->Some_0,
        ),
        r is Ok ==> p < r->Ok_0.1 <= s@.len(),
        r is Err ==> r->Err_0.offset <= s@.len(),
    decreases s@.len() - p, 0nat,
{
    let ghost a0 = ctx.arena;
    proof {
        ast::lemma_extends_refl(a0);
    }
    let q = skip_spaces(s, p);
    if q < s.len() && 48 <= s[q] && s[q] <= 57 {
        let (v, e) = match int_lit(s, q) {
            Ok(x) => x,
            Err(err) => {
                return Err(err);
            },
        };
        proof {
            lemma_digits_end_bound(s@, q + 1);
        }
        let id = ctx.node(NodeKind::Lit(LitKind::IntLit(v)));
        proof {
            assert(ast::laid_out(ast_items(ctx.arena), ast_items(a0).len() as int, Expr::Lit(v)));
        }
        Ok((id, e))
    } else if q < s.len() && s[q] == 40 {
        let (inner, r) = match expr(s, q + 1, ctx) {
            Ok(x) => x,
            Err(err) => {
                return Err(err);
            },
        };
        let ghost mid = ctx.arena;
        let t = skip_spaces(s, r);
        if t < s.len() && s[t] == 41 {
            let id = ctx.node(NodeKind::Paren(inner));
            proof {
                ast::lemma_extends_keeps(mid, ctx.arena, inner);
                ast::lemma_extends_trans(a0, mid, ctx.arena);
                let e = ast::tree_of(mid, inner);
                let base = ast_items(a0).len() as int;
                ast::lemma_laid_out_prefix(ast_items(mid), ast_items(ctx.arena), base, e);
                assert(ast::laid_out(ast_items(ctx.arena), base, Expr::Paren(Box::new(e))));
            }
            Ok((id, t + 1))
        } else {
            Err(ParseError { offset: t, expected: Expected::ClosingParen })
        }
    } else {
        Err(ParseError { offset: q, expected: Expected::Operand })
    }
}

fn term(s: &[u8], p: usize, ctx: &mut Context) -> (r: Result<(AstId, usize), ParseError>)
    requires
        p <= s@.len(),
        ast::arena_wf(old(ctx).arena),
    ensures
        ast::arena_wf(final(ctx).arena),
        ast::extends(old(ctx).arena, final(ctx).arena),
        parsed_as(p_term(s@, p as int), r, final(ctx).arena, ast_items(old(ctx).arena).len() as int),
        first_error(s@, p as int) is Some ==> r == Err::<(AstId, usize), ParseError>(
            first_error(s@, p as int)->Some_0,
        ),
        r is Ok ==> p < r->Ok_0.1 <= s@.len(),
        r is Err ==> r->Err_0.offset <= s@.len(),
    decreases s@.len() - p, 1nat,
{
    let ghost a0 = ctx.arena;
    let (mut acc, mut q) = match factor(s, p, ctx) {
        Ok(x) => x,
        Err(err) => {
            return Err(err);
        },
    };
    loop
        invariant
            p < q <= s@.len(),
            ast::arena_wf(ctx.arena),
            ast::extends(a0, ctx.arena),
            a0 == old(ctx).arena,
            ast::valid_id(ctx.arena, acc),
            term_rest(s@, ast::tree_of(ctx.arena, acc), q as int) == p_term(s@, p as int),
            first_error(s@, p as int) is None,
            ast_items(ctx.arena).len() == ast_items(a0).len() + ast::count(ast::tree_of(ctx.arena, acc)),
            ast::ast_id_index(acc) == ast_items(ctx.arena).len() - 1,
            ast::laid_out(ast_items(ctx.arena), ast_items(a0).len() as int, ast::tree_of(ctx.arena, acc)),
        decreases s@.len() - q,
    {
        let t = skip_spaces(s, q);
        if t < s.len() && (s[t] == 42 || s[t] == 47) {
            let op = if s[t] == 42 {
                BiOpKind::Mul
            } else {
                BiOpKind::Div
            };
            let ghost mid = ctx.arena;
            let (f, r) = match factor(s, t + 1, ctx) {
                Ok(x) => x,
                Err(err) => {
                    proof {
                        ast::lemma_extends_trans(a0, mid, ctx.arena);
                    }
                    return Err(err);
                },
            };
            let ghost after = ctx.arena;
            let id = ctx.node(NodeKind::BiOp(op, acc, f));
            proof {
                ast::lemma_extends_keeps(mid, after, acc);
                ast::lemma_extends_keeps(after, ctx.arena, acc);
                ast::lemma_extends_keeps(after, ctx.arena, f);
                ast::lemma_extends_trans(a0, mid, after);
                ast::lemma_extends_trans(a0, after, ctx.arena);
                let base = ast_items(a0).len() as int;
                let tl = ast::tree_of(mid, acc);
                let tr = ast::tree_of(after, f);
                ast::lemma_laid_out_prefix(ast_items(mid), ast_items(after), base, tl);
                ast::lemma_laid_out_prefix(ast_items(after), ast_items(ctx.arena), base, tl);
                ast::lemma_laid_out_prefix(
                    ast_items(after),
                    ast_items(ctx.arena),
                    base + ast::count(tl),
                    tr,
                );
                assert(ast::laid_out(
                    ast_items(ctx.arena),
                    base,
                    Expr::BiOp(op, Box::new(tl), Box::new(tr)),
                ));
            }
            acc = id;
            q = r;
        } else {
            return Ok((acc, q));
        }
    }
}

fn expr(s: &[u8], p: usize, ctx: &mut Context) -> (r: Result<(AstId, usize), ParseError>)
    requires
        p <= s@.len(),
        ast::arena_wf(old(ctx).arena),
    ensures
        ast::arena_wf(final(ctx).arena),
        ast::extends(old(ctx).arena, final(ctx).arena),
        parsed_as(p_expr(s@, p as int), r, final(ctx).arena, ast_items(old(ctx).arena).len() as int),
        first_error(s@, p as int) is Some ==> r == Err::<(AstId, usize), ParseError>(
            first_error(s@, p as int)->Some_0,
        ),
        r is Ok ==> p < r->Ok_0.1 <= s@.len(),
        r is Err ==> r->Err_0.offset <= s@.len(),
    decreases s@.len() - p, 2nat,
{
    let ghost a0 = ctx.arena;
    let (mut acc, mut q) = match term(s, p, ctx) {
        Ok(x) => x,
        Err(err) => {
            return Err(err);
        },
    };
    loop
        invariant
            p < q <= s@.len(),
            ast::arena_wf(ctx.arena),
            ast::extends(a0, ctx.arena),
            a0 == old(ctx).arena,
            ast::valid_id(ctx.arena, acc),
            expr_rest(s@, ast::tree_of(ctx.arena, acc), q as int) == p_expr(s@, p as int),
            first_error(s@, p as int) is None,
            ast_items(ctx.arena).len() == ast_items(a0).len() + ast::count(ast::tree_of(ctx.arena, acc)),
            ast::ast_id_index(acc) == ast_items(ctx.arena).len() - 1,
            ast::laid_out(ast_items(ctx.arena), ast_items(a0).len() as int, ast::tree_of(ctx.arena, acc)),
        decreases s@.len() - q,
    {
        let t = skip_spaces(s, q);
        if t < s.len() && (s[t] == 43 || s[t] == 45) {
            let op = if s[t] == 43 {
                BiOpKind::Add
            } else {
                BiOpKind::Sub
            };
            let ghost mid = ctx.arena;
            let (f, r) = match term(s, t + 1, ctx) {
                Ok(x) => x,
                Err(err) => {
                    proof {
                        ast::lemma_extends_trans(a0, mid, ctx.arena);
                    }
                    return Err(err);
                },
            };
            let ghost after = ctx.arena;
            let id = ctx.node(NodeKind::BiOp(op, acc, f));
            proof {
                ast::lemma_extends_keeps(mid, after, acc);
                ast::lemma_extends_keeps(after, ctx.arena, acc);
                ast::lemma_extends_keeps(after, ctx.arena, f);
                ast::lemma_extends_trans(a0, mid, after);
                ast::lemma_extends_trans(a0, after, ctx.arena);
                let base = ast_items(a0).len() as int;
                let tl = ast::tree_of(mid, acc);
                let tr = ast::tree_of(after, f);
                ast::lemma_laid_out_prefix(ast_items(mid), ast_items(after), base, tl);
                ast::lemma_laid_out_prefix(ast_items(after), ast_items(ctx.arena), base, tl);
                ast::lemma_laid_out_prefix(
                    ast_items(after),
                    ast_items(ctx.arena),
                    base + ast::count(tl),
                    tr,
                );
                assert(ast::laid_out(
                    ast_items(ctx.arena),
                    base,
                    Expr::BiOp(op, Box::new(tl), Box::new(tr)),
                ));
            }
            acc = id;
            q = r;
        } else {
            return Ok((acc, q));
        }
    }
}

/// Parses `source` into a new arena and returns it with the id of the root.
/// The arena holds one node per production, in post order, left operand
/// first, with the root last.
///
/// The parser recurses once per level of parentheses (chains of operators are
/// folded in a loop), so deeply nested parentheses can exhaust the stack.
pub fn parse(source: &str) -> (r: Result<(AstArena, AstId), ParseError>)
    ensures
        r is Ok <==> parse_spec(source.spec_bytes()) is Some,
        r is Ok ==> {
            let (arena, root) = r->Ok_0;
            let e = parse_spec(source.spec_bytes())->Some_0;
            &&& ast::arena_wf(arena)
            &&& ast::valid_id(arena, root)
            &&& ast::tree_of(arena, root) == e
            &&& ast_items(arena).len() == ast::count(e)
            &&& ast::ast_id_index(root) == ast_items(arena).len() - 1
            &&& ast::laid_out(ast_items(arena), 0, e)
        },
        r is Err ==> r->Err_0.offset <= source.spec_bytes().len(),
        first_error(source.spec_bytes(), 0) is Some ==> r == Err::<(AstArena, AstId), ParseError>(
            first_error(source.spec_bytes(), 0)->Some_0,
        ),
        ({
            let s = source.spec_bytes();
            p_expr(s, 0) is Some && skip_ws(s, p_expr(s, 0)->Some_0.1) != s.len() ==> r == Err::<
                (AstArena, AstId),
                ParseError,
            >(
                ParseError {
                    offset: skip_ws(s, p_expr(s, 0)->Some_0.1) as usize,
                    expected: Expected::EndOfInput,
                },
            )
        }),
{
    let s = source.as_bytes();
    let mut context = Context { arena: ast::ast_arena_new() };
    let (root, q) = match expr(s, 0, &mut context) {
        Ok(x) => x,
        Err(err) => {
            return Err(err);
        },
    };
    let t = skip_spaces(s, q);
    if t == s.len() {
        Ok((context.arena, root))
    } else {
        Err(ParseError { offset: t, expected: Expected::EndOfInput })
    }
}

} // verus!
