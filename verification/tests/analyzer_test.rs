use lazy_init_plugin::analyzer::{analyze, TransformType};
use lazy_init_plugin::ast::{BlockStmt, Span, Stmt};
use lazy_init_plugin::stmt_context::StmtType;

fn body(stmts: Vec<Stmt>) -> BlockStmt {
    BlockStmt { span: Span { lo: 1, hi: 2 }, stmts }
}

#[test]
fn single_return_is_inline() {
    // A body consisting of a single unconditional return is inlined.
    let mut b = body(vec![Stmt::Return(Some(1))]);
    let ok = analyze(&mut b).unwrap();
    assert_eq!(ok.transform_type, TransformType::Inline);
}

#[test]
fn if_else_both_return_is_inline() {
    // A body whose last statement is an if/else where both branches always
    // return is inlined.
    let mut b = body(vec![
        Stmt::Other,
        Stmt::If(
            Box::new(Stmt::Block(vec![Stmt::Return(Some(1))])),
            Some(Box::new(Stmt::Block(vec![Stmt::Return(Some(2))]))),
        ),
    ]);
    let ok = analyze(&mut b).unwrap();
    assert_eq!(ok.transform_type, TransformType::Inline);
}

#[test]
fn lonely_if_without_rest_is_wrapped() {
    // Removing the else, with nothing after the if, degrades to the wrapped
    // conclusion, since the body may silently skip the branch.
    let mut b = body(vec![Stmt::If(
        Box::new(Stmt::Block(vec![Stmt::Return(Some(1))])),
        None,
    )]);
    let ok = analyze(&mut b).unwrap();
    assert_eq!(ok.transform_type, TransformType::Wrapped);
}

#[test]
fn if_chain_normalization_is_inline() {
    // `if (a) { return 1; } return 2;` is rewritten in place to
    // `if (a) { return 1; } else { return 2; }` and inlined.
    let mut b = body(vec![
        Stmt::If(Box::new(Stmt::Block(vec![Stmt::Return(Some(1))])), None),
        Stmt::Return(Some(2)),
    ]);
    let ok = analyze(&mut b).unwrap();
    assert_eq!(ok.transform_type, TransformType::Inline);
    match &b.stmts[0] {
        Stmt::If(_, alt) => match alt.as_deref() {
            Some(Stmt::Block(rest)) => {
                assert!(matches!(rest[0], Stmt::Return(Some(2))));
            }
            _ => panic!("expected a synthesized else block"),
        },
        _ => panic!("expected the if statement to remain first"),
    }
    assert_eq!(b.stmts.len(), 1);
}

#[test]
fn do_while_with_return_is_wrapped() {
    // A body containing a flow-disrupting do-while takes the safe wrapped
    // verdict.
    let mut b = body(vec![
        Stmt::DoWhile(Box::new(Stmt::Block(vec![Stmt::Return(Some(1))]))),
        Stmt::Return(Some(2)),
    ]);
    let ok = analyze(&mut b).unwrap();
    assert_eq!(ok.transform_type, TransformType::Wrapped);
}

#[test]
fn no_flow_impact_loop_is_pruned() {
    // `for (..) { f(i); }` has no jumps: the classifier reports all zero
    // and the analyzer records it as flow-neutral, so only the return
    // remains in the final context.
    let mut b = body(vec![
        Stmt::For(Box::new(Stmt::Block(vec![Stmt::Other]))),
        Stmt::Return(None),
    ]);
    let ok = analyze(&mut b).unwrap();
    assert_eq!(ok.transform_type, TransformType::Inline);
    assert_eq!(ok.final_ctx.children.len(), 1);
    assert_eq!(ok.final_ctx.children[0].kind, StmtType::Return);
}

#[test]
fn missing_return_is_an_error() {
    let mut b = body(vec![Stmt::Other]);
    let err = analyze(&mut b).unwrap_err();
    assert_eq!(err.msg, "A block must always contain a `return` statement.");
    assert_eq!(err.span, Some(Span { lo: 1, hi: 2 }));
}
