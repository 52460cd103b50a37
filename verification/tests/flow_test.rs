use lazy_init_plugin::ast::{Stmt, SwitchCase};
use lazy_init_plugin::flow_analyzer::analyze_flow;

fn block(stmts: Vec<Stmt>) -> Stmt {
    Stmt::Block(stmts)
}

#[test]
fn test_analyze_flow() {
    // `for (let i = 0; i < arr.length; i++) { someFn(i); }`: no jumps, so
    // every count is zero.
    let fixture_a = Stmt::For(Box::new(block(vec![Stmt::Other])));
    let result = analyze_flow(&fixture_a);
    assert_eq!(result.returns.total, 0);
    assert_eq!(result.breaks.total, 0);
    assert_eq!(result.continues.total, 0);
    assert_eq!(result.throws.total, 0);
    assert!(!result.disrupts_flow());

    // `switch (val) { case 1: break; case 2: return; case 3: throw e;
    //   default: { let i = 0; while (i < 10) { i++; if (c) continue;
    //   someFn(i); } } }`
    let fixture_b = Stmt::Switch(vec![
        SwitchCase { is_default: false, cons: vec![Stmt::Break(None)] },
        SwitchCase { is_default: false, cons: vec![Stmt::Return(None)] },
        SwitchCase { is_default: false, cons: vec![Stmt::Throw] },
        SwitchCase {
            is_default: true,
            cons: vec![block(vec![
                Stmt::Other,
                Stmt::While(Box::new(block(vec![
                    Stmt::Other,
                    Stmt::If(Box::new(block(vec![Stmt::Continue(None)])), None),
                    Stmt::Other,
                ]))),
            ])],
        },
    ]);
    let result = analyze_flow(&fixture_b);
    assert_eq!(result.returns.total, 1);
    assert_eq!(result.returns.target_scope, 1);
    assert_eq!(result.breaks.total, 1);
    assert_eq!(result.breaks.target_scope, 1);
    assert_eq!(result.continues.total, 1);
    assert_eq!(result.continues.nested_scope, 1);
    assert_eq!(result.throws.total, 1);
    assert_eq!(result.throws.parent_scope, 1);
}

#[test]
fn labeled_break_targets_label() {
    // A labeled statement wrapping a loop that contains `break outer;`
    // targeting that label: classified target scope, regardless of the
    // intervening nested loops.
    let inner = Stmt::While(Box::new(block(vec![Stmt::Break(Some(String::from("outer")))])));
    let outer_loop = Stmt::While(Box::new(block(vec![inner])));
    let target = Stmt::Labeled(String::from("outer"), Box::new(outer_loop));
    let result = analyze_flow(&target);
    assert_eq!(result.breaks.total, 1);
    assert_eq!(result.breaks.target_scope, 1);
}

#[test]
fn counts_sum_to_total() {
    let target = Stmt::While(Box::new(block(vec![
        Stmt::Break(None),
        Stmt::Continue(None),
        Stmt::Return(Some(1)),
        Stmt::Throw,
        Stmt::Break(Some(String::from("out"))),
    ])));
    let result = analyze_flow(&target);
    for c in [result.returns, result.breaks, result.continues, result.throws] {
        assert_eq!(c.total, c.target_scope + c.nested_scope + c.parent_scope);
    }
}
