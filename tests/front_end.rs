use bonsai::ast::{AstArena, AstId, BiOpKind, LitKind, NodeKind};
use bonsai::driver::{compile, FrontEndError};
use bonsai::emit::{schedule, Step};
use bonsai::ir::{IrArena, IrId, Kind, OpKind};
use bonsai::irgen::{generate, LoweringError};
use bonsai::parser::{parse, Expected, ParseError};

fn show_ast(a: &AstArena, id: AstId) -> String {
    match &a[id].kind {
        NodeKind::Lit(LitKind::IntLit(v)) => format!("Lit({})", v),
        NodeKind::Paren(e) => format!("Paren({})", show_ast(a, *e)),
        NodeKind::BiOp(op, l, r) => format!("BiOp({:?}, {}, {})", op, show_ast(a, *l), show_ast(a, *r)),
    }
}

fn show_ir(a: &IrArena, id: IrId) -> String {
    match &a[id].kind {
        Kind::IntValue(v) => format!("IntValue({})", v),
        Kind::Op(op, args) => {
            let shown: Vec<String> = args.iter().map(|x| show_ir(a, *x)).collect();
            format!("Op({:?}, [{}])", op, shown.join(", "))
        }
    }
}

/// Signed 64-bit two's-complement evaluation, division truncating toward zero.
fn eval(a: &IrArena, id: IrId) -> Option<i64> {
    match &a[id].kind {
        Kind::IntValue(v) => Some(*v),
        Kind::Op(op, args) => {
            let l = eval(a, args[0])?;
            let r = eval(a, args[1])?;
            match op {
                OpKind::IAdd => Some(l.wrapping_add(r)),
                OpKind::ISub => Some(l.wrapping_sub(r)),
                OpKind::IMul => Some(l.wrapping_mul(r)),
                OpKind::IDiv => l.checked_div(r),
            }
        }
    }
}

fn run(src: &str) -> i64 {
    let (arena, root) = compile(src).expect("source should compile");
    eval(&arena, root).expect("expression should evaluate")
}

fn lowered(src: &str) -> String {
    let (arena, root) = compile(src).expect("source should compile");
    show_ir(&arena, root)
}

fn parse_error(src: &str) -> ParseError {
    match parse(src) {
        Ok(_) => panic!("parse should fail"),
        Err(e) => e,
    }
}

#[test]
fn basic_expression_evaluates_to_42() {
    let src = r#"
        6 * 7
        "#;
    let out = format!("result: {}\n", run(src));
    assert!(out.trim() == "result: 42");
}

#[test]
fn parse_product_gives_biop_of_literals() {
    let (arena, root) = parse("6 * 7").unwrap();
    assert_eq!(show_ast(&arena, root), "BiOp(Mul, Lit(6), Lit(7))");
    assert_eq!(arena.len(), 3);
}

#[test]
fn lower_product_gives_imul_op() {
    let (ast_arena, ast_root) = parse("6 * 7").unwrap();
    let (ir_arena, ir_root) = generate(ast_arena, ast_root).unwrap();
    assert_eq!(show_ir(&ir_arena, ir_root), "Op(IMul, [IntValue(6), IntValue(7)])");
    assert_eq!(ir_arena.len(), 3);
}

#[test]
fn multiplication_binds_tighter_than_addition() {
    assert_eq!(run("1+2*3"), 7);
    let (arena, root) = parse("1+2*3").unwrap();
    assert_eq!(show_ast(&arena, root), "BiOp(Add, Lit(1), BiOp(Mul, Lit(2), Lit(3)))");
}

#[test]
fn parentheses_override_precedence() {
    assert_eq!(run("(1+2)*3"), 9);
    let (arena, root) = parse("(1+2)*3").unwrap();
    assert_eq!(show_ast(&arena, root), "BiOp(Mul, Paren(BiOp(Add, Lit(1), Lit(2))), Lit(3))");
}

#[test]
fn subtraction_is_left_associative() {
    assert_eq!(run("10-2-3"), 5);
    assert_eq!(lowered("10-2-3"), "Op(ISub, [Op(ISub, [IntValue(10), IntValue(2)]), IntValue(3)])");
}

#[test]
fn division_is_left_associative() {
    assert_eq!(run("100/10/5"), 2);
}

#[test]
fn division_truncates_toward_zero() {
    assert_eq!(run("7/2"), 3);
    assert_eq!(run("(0-7)/2"), -3);
}

#[test]
fn unary_minus_is_not_in_the_grammar() {
    assert_eq!(parse_error("-7/2"), ParseError { offset: 0, expected: Expected::Operand });
}

#[test]
fn malformed_inputs_give_parse_errors() {
    assert_eq!(parse_error("1+"), ParseError { offset: 2, expected: Expected::Operand });
    assert_eq!(parse_error("(1"), ParseError { offset: 2, expected: Expected::ClosingParen });
    assert_eq!(parse_error(""), ParseError { offset: 0, expected: Expected::Operand });
    assert!(matches!(compile("1+"), Err(FrontEndError::Parse(_))));
    assert!(matches!(compile(""), Err(FrontEndError::Parse(_))));
}

#[test]
fn trailing_input_is_rejected() {
    assert_eq!(parse_error("1)"), ParseError { offset: 1, expected: Expected::EndOfInput });
    assert_eq!(parse_error("1 2"), ParseError { offset: 2, expected: Expected::EndOfInput });
    assert_eq!(parse_error("2*"), ParseError { offset: 2, expected: Expected::Operand });
}

#[test]
fn non_ascii_input_is_rejected() {
    assert_eq!(parse_error("\u{ff11}"), ParseError { offset: 0, expected: Expected::Operand });
}

#[test]
fn whitespace_is_allowed_between_tokens() {
    assert_eq!(run(" \t\r\n 1 +\n2\t* ( 3 ) \n"), 7);
}

#[test]
fn largest_literal_is_accepted() {
    assert_eq!(run("9223372036854775807"), i64::MAX);
}

#[test]
fn literal_above_i64_max_is_rejected() {
    assert_eq!(
        parse_error("1 + 9223372036854775808"),
        ParseError { offset: 4, expected: Expected::SmallerLiteral }
    );
}

#[test]
fn arithmetic_wraps_in_two_complement() {
    assert_eq!(run("9223372036854775807+1"), i64::MIN);
}

#[test]
fn parentheses_are_kept_in_the_ast() {
    let (arena, root) = parse("((6*7))").unwrap();
    assert_eq!(show_ast(&arena, root), "Paren(Paren(BiOp(Mul, Lit(6), Lit(7))))");
}

#[test]
fn parentheses_are_erased_by_lowering() {
    let (a1, r1) = compile("(((6*7)))").unwrap();
    let (a2, r2) = compile("6*7").unwrap();
    assert_eq!(show_ir(&a1, r1), show_ir(&a2, r2));
    assert_eq!(a1.len(), a2.len());
}

#[test]
fn compiling_twice_gives_the_same_result() {
    let src = "(8 - 3) * 4 / 2";
    let (a1, r1) = compile(src).unwrap();
    let (a2, r2) = compile(src).unwrap();
    assert_eq!(show_ir(&a1, r1), show_ir(&a2, r2));
    assert_eq!(eval(&a1, r1), eval(&a2, r2));
    assert_eq!(eval(&a1, r1), Some(10));
}

#[test]
fn lowering_rejects_an_id_of_another_arena() {
    let (a1, _) = parse("1").unwrap();
    let (_, r2) = parse("2").unwrap();
    assert!(matches!(generate(a1, r2), Err(LoweringError::MissingNode)));
}

#[test]
fn lowering_allocates_operands_before_operations() {
    let (arena, root) = compile("1-(2+3)").unwrap();
    assert_eq!(root.index(), arena.len() - 1);
    for (id, node) in arena.iter() {
        if let Kind::Op(_, args) = &node.kind {
            assert_eq!(args.len(), 2);
            assert!(args.iter().all(|a| a.index() < id.index()));
        }
    }
}

#[test]
fn schedule_computes_operands_first() {
    let (arena, root) = compile("1-(2*3)").unwrap();
    let steps = schedule(&arena, root).unwrap();
    assert_eq!(
        steps,
        vec![
            Step::Const(1),
            Step::Const(2),
            Step::Const(3),
            Step::Apply(OpKind::IMul, 1, 2),
            Step::Apply(OpKind::ISub, 0, 3),
        ]
    );
}

#[test]
fn schedule_of_a_literal_is_one_step() {
    let (arena, root) = compile("(42)").unwrap();
    assert_eq!(schedule(&arena, root).unwrap(), vec![Step::Const(42)]);
}

#[test]
fn schedule_rejects_an_id_of_another_arena() {
    let (a1, _) = compile("1").unwrap();
    let (_, r2) = compile("2").unwrap();
    assert_eq!(schedule(&a1, r2), Err(LoweringError::MissingNode));
}

#[test]
fn schedule_left_chain_order() {
    let (arena, root) = compile("8/4/2").unwrap();
    let steps = schedule(&arena, root).unwrap();
    assert_eq!(
        steps,
        vec![
            Step::Const(8),
            Step::Const(4),
            Step::Apply(OpKind::IDiv, 0, 1),
            Step::Const(2),
            Step::Apply(OpKind::IDiv, 2, 3),
        ]
    );
}

#[test]
fn parse_lays_out_nodes_in_post_order() {
    let (arena, root) = parse("6 * 7").unwrap();
    let kinds: Vec<&NodeKind> = arena.iter().map(|(_, n)| &n.kind).collect();
    assert_eq!(kinds[0], &NodeKind::Lit(LitKind::IntLit(6)));
    assert_eq!(kinds[1], &NodeKind::Lit(LitKind::IntLit(7)));
    match kinds[2] {
        NodeKind::BiOp(BiOpKind::Mul, l, r) => {
            assert_eq!((l.index(), r.index()), (0, 1));
        }
        other => panic!("unexpected node {:?}", other),
    }
    assert_eq!(root.index(), 2);
}

#[test]
fn parse_allocates_one_node_per_production() {
    let (arena, root) = parse("(1+2)*3").unwrap();
    assert_eq!(arena.len(), 6);
    assert_eq!(root.index(), arena.len() - 1);
    match &arena[root].kind {
        NodeKind::BiOp(_, l, r) => {
            assert_eq!(l.index(), 3);
            assert_eq!(r.index(), 4);
        }
        other => panic!("unexpected node {:?}", other),
    }
}

#[test]
fn lowering_lays_out_nodes_in_post_order() {
    let (ast_arena, ast_root) = parse("6 * 7").unwrap();
    let (ir, q) = generate(ast_arena, ast_root).unwrap();
    let kinds: Vec<&Kind> = ir.iter().map(|(_, n)| &n.kind).collect();
    assert_eq!(kinds[0], &Kind::IntValue(6));
    assert_eq!(kinds[1], &Kind::IntValue(7));
    match kinds[2] {
        Kind::Op(OpKind::IMul, args) => {
            let idx: Vec<usize> = args.iter().map(|a| a.index()).collect();
            assert_eq!(idx, vec![0, 1]);
        }
        other => panic!("unexpected node {:?}", other),
    }
    assert_eq!(q.index(), 2);
}

fn ir_layout(src: &str) -> (Vec<String>, usize) {
    let (arena, root) = compile(src).unwrap();
    let nodes = arena
        .iter()
        .map(|(_, n)| match &n.kind {
            Kind::IntValue(v) => format!("IntValue({})", v),
            Kind::Op(op, args) => {
                let idx: Vec<usize> = args.iter().map(|a| a.index()).collect();
                format!("Op({:?}, {:?})", op, idx)
            }
        })
        .collect();
    (nodes, root.index())
}

#[test]
fn parentheses_leave_the_ir_arena_unchanged() {
    assert_eq!(ir_layout("(((6*7)))"), ir_layout("6*7"));
    assert_eq!(ir_layout("(1-2)-(3)"), ir_layout("1-2-3"));
}

#[test]
fn lowering_puts_the_left_operand_first() {
    let (nodes, root) = ir_layout("1-(2*3)");
    assert_eq!(
        nodes,
        vec!["IntValue(1)", "IntValue(2)", "IntValue(3)", "Op(IMul, [1, 2])", "Op(ISub, [0, 3])"]
    );
    assert_eq!(root, 4);
}

#[test]
fn whitespace_only_input_is_missing_an_operand() {
    assert_eq!(parse_error("  \n"), ParseError { offset: 3, expected: Expected::Operand });
}

#[test]
fn node_clone_keeps_the_kind() {
    let (arena, root) = parse("1+2").unwrap();
    let copy = arena[root].clone();
    assert_eq!(copy, arena[root]);
}
