use num_bigint::BigInt;
use type_analysis::ast::{
    AssignOp, Expression, ExpressionInfixOpcode, Meta, Statement, VariableType,
};
use type_analysis::lint::{LintLevel, ReportCode};
use type_analysis::termination::{is_for_loop, TerminationAnalyser};

fn meta(elem_id: usize, start: usize, end: usize) -> Meta {
    Meta { elem_id, start, end, component_inference: None }
}

fn num(elem_id: usize, v: u64) -> Expression {
    Expression::Number(meta(elem_id, 0, 0), BigInt::from(v))
}

fn var(elem_id: usize, name: &str) -> Expression {
    Expression::Variable { meta: meta(elem_id, 0, 0), name: name.to_string(), access: vec![] }
}

fn infix(elem_id: usize, lhe: Expression, op: ExpressionInfixOpcode, rhe: Expression) -> Expression {
    Expression::InfixOp { meta: meta(elem_id, 0, 0), lhe: Box::new(lhe), infix_op: op, rhe: Box::new(rhe) }
}

fn counter_sub(elem_id: usize, start: usize, end: usize, op: ExpressionInfixOpcode, step: u64) -> Statement {
    Statement::Substitution {
        meta: meta(elem_id, start, end),
        var: "i".to_string(),
        access: vec![],
        op: AssignOp::AssignVar,
        rhe: infix(elem_id + 100, var(elem_id + 200, "i"), op, num(elem_id + 300, step)),
    }
}

/// The canonical loop `var i; i = 0; while (i < 10) { <branch steps>; log }`,
/// with one or two step statements in the body.
fn canonical_loop(body_stmts: Vec<Statement>) -> Vec<Statement> {
    vec![
        Statement::InitializationBlock {
            meta: meta(1, 0, 30),
            initializations: vec![
                Statement::Declaration {
                    meta: meta(2, 0, 10),
                    xtype: VariableType::Var,
                    name: "i".to_string(),
                    dimensions: vec![],
                    is_constant: false,
                },
                Statement::Substitution {
                    meta: meta(3, 11, 20),
                    var: "i".to_string(),
                    access: vec![],
                    op: AssignOp::AssignVar,
                    rhe: num(4, 0),
                },
            ],
        },
        Statement::While {
            meta: meta(5, 31, 90),
            cond: infix(6, var(7, "i"), ExpressionInfixOpcode::Lesser, num(8, 10)),
            stmt: Box::new(Statement::Block { meta: meta(9, 32, 89), stmts: body_stmts }),
        },
    ]
}

#[test]
fn recognizes_canonical_loop() {
    let stmts = canonical_loop(vec![counter_sub(10, 40, 50, ExpressionInfixOpcode::Add, 1)]);
    let fl = is_for_loop(&stmts).unwrap();
    assert_eq!(fl.counter, "i");
    assert_eq!(fl.init, BigInt::from(0u64));
    assert_eq!(fl.bound, BigInt::from(10u64));
}

#[test]
fn rejects_non_strict_comparison() {
    let mut stmts = canonical_loop(vec![counter_sub(10, 40, 50, ExpressionInfixOpcode::Add, 1)]);
    if let Statement::While { cond, .. } = &mut stmts[1] {
        *cond = infix(6, var(7, "i"), ExpressionInfixOpcode::LesserEq, num(8, 10));
    }
    assert!(is_for_loop(&stmts).is_none());
}

#[test]
fn rejects_non_literal_bound() {
    let mut stmts = canonical_loop(vec![counter_sub(10, 40, 50, ExpressionInfixOpcode::Add, 1)]);
    if let Statement::While { cond, .. } = &mut stmts[1] {
        *cond = infix(6, var(7, "i"), ExpressionInfixOpcode::Lesser, var(8, "n"));
    }
    assert!(is_for_loop(&stmts).is_none());
}

#[test]
fn incrementing_loop_is_safe() {
    // i = i + 1 on the only path: no lint.
    let stmts = canonical_loop(vec![
        counter_sub(10, 40, 50, ExpressionInfixOpcode::Add, 1),
        Statement::LogCall { meta: meta(11, 51, 60) },
    ]);
    let fl = is_for_loop(&stmts).unwrap();
    let mut analyser = TerminationAnalyser::new(Some(fl));
    let lints = analyser.analyse();
    assert_eq!(lints.len(), 0);
}

#[test]
fn decrementing_path_warns_of_overflow() {
    // One branch decrements, the other increments: the decrementing path is
    // flagged as a possible wraparound, at warning severity since the other
    // path is safe.
    let branch = Statement::IfThenElse {
        meta: meta(12, 40, 70),
        cond: var(13, "c"),
        if_case: Box::new(Statement::Block {
            meta: meta(14, 41, 55),
            stmts: vec![counter_sub(15, 42, 54, ExpressionInfixOpcode::Sub, 1)],
        }),
        else_case: Some(Box::new(Statement::Block {
            meta: meta(16, 56, 69),
            stmts: vec![counter_sub(17, 57, 68, ExpressionInfixOpcode::Add, 1)],
        })),
    };
    let stmts = canonical_loop(vec![branch, Statement::LogCall { meta: meta(18, 71, 80) }]);
    let fl = is_for_loop(&stmts).unwrap();
    let mut analyser = TerminationAnalyser::new(Some(fl));
    let lints = analyser.analyse();
    assert_eq!(lints.len(), 1);
    assert_eq!(lints[0].error_code, ReportCode::LoopMayOverflow);
    assert_eq!(lints[0].level, LintLevel::Warning);
    assert_eq!(
        lints[0].error_msg,
        "Loop may overflow: refer to Circom's docs on modular field arithmetic: https://docs.circom.io/circom-language/basic-operators/#field-elements"
    );
    // the lint points at the first recognized step of the offending path
    assert_eq!(lints[0].loc, (42, 54));
}

#[test]
fn zero_step_path_warns_of_no_progress() {
    // One branch steps by zero, the other by one.
    let branch = Statement::IfThenElse {
        meta: meta(12, 40, 70),
        cond: var(13, "c"),
        if_case: Box::new(Statement::Block {
            meta: meta(14, 41, 55),
            stmts: vec![counter_sub(15, 42, 54, ExpressionInfixOpcode::Add, 0)],
        }),
        else_case: Some(Box::new(Statement::Block {
            meta: meta(16, 56, 69),
            stmts: vec![counter_sub(17, 57, 68, ExpressionInfixOpcode::Add, 1)],
        })),
    };
    let stmts = canonical_loop(vec![branch, Statement::LogCall { meta: meta(18, 71, 80) }]);
    let fl = is_for_loop(&stmts).unwrap();
    let mut analyser = TerminationAnalyser::new(Some(fl));
    let lints = analyser.analyse();
    assert_eq!(lints.len(), 1);
    assert_eq!(lints[0].error_code, ReportCode::LoopNoProgress);
    assert_eq!(lints[0].level, LintLevel::Warning);
    assert_eq!(lints[0].error_msg, "Loop does not progress");
}

#[test]
fn unrecognized_step_counts_as_no_progress() {
    // i = j is a substitution into the counter with an unrecognized shape: it
    // is excluded from the accumulated delta, which stays zero.
    let odd_step = Statement::Substitution {
        meta: meta(15, 42, 54),
        var: "i".to_string(),
        access: vec![],
        op: AssignOp::AssignVar,
        rhe: var(16, "j"),
    };
    let stmts = canonical_loop(vec![odd_step, Statement::LogCall { meta: meta(18, 71, 80) }]);
    let fl = is_for_loop(&stmts).unwrap();
    let mut analyser = TerminationAnalyser::new(Some(fl));
    let lints = analyser.analyse();
    assert_eq!(lints.len(), 1);
    assert_eq!(lints[0].error_code, ReportCode::LoopNoProgress);
    // the only path is unsafe: escalated
    assert_eq!(lints[0].level, LintLevel::Error);
}

#[test]
fn all_paths_unsafe_escalates_to_error() {
    // Both branches decrement: every path wraps, so every lint is an error.
    let branch = Statement::IfThenElse {
        meta: meta(12, 40, 70),
        cond: var(13, "c"),
        if_case: Box::new(Statement::Block {
            meta: meta(14, 41, 55),
            stmts: vec![counter_sub(15, 42, 54, ExpressionInfixOpcode::Sub, 1)],
        }),
        else_case: Some(Box::new(Statement::Block {
            meta: meta(16, 56, 69),
            stmts: vec![counter_sub(17, 57, 68, ExpressionInfixOpcode::Sub, 2)],
        })),
    };
    let stmts = canonical_loop(vec![branch, Statement::LogCall { meta: meta(18, 71, 80) }]);
    let fl = is_for_loop(&stmts).unwrap();
    let mut analyser = TerminationAnalyser::new(Some(fl));
    let lints = analyser.analyse();
    assert_eq!(lints.len(), 2);
    for l in &lints {
        assert_eq!(l.error_code, ReportCode::LoopMayOverflow);
        assert_eq!(l.level, LintLevel::Error);
    }
}

#[test]
fn no_recognized_loop_no_lints() {
    let mut analyser = TerminationAnalyser::new(None);
    assert_eq!(analyser.analyse().len(), 0);
}

#[test]
fn two_steps_on_one_path_accumulate() {
    // i = i + 1 followed by i = i - 3 accumulates to -2: an overflow warning.
    let stmts = canonical_loop(vec![
        counter_sub(10, 40, 50, ExpressionInfixOpcode::Add, 1),
        counter_sub(11, 51, 60, ExpressionInfixOpcode::Sub, 3),
    ]);
    let fl = is_for_loop(&stmts).unwrap();
    let mut analyser = TerminationAnalyser::new(Some(fl));
    let lints = analyser.analyse();
    assert_eq!(lints.len(), 1);
    assert_eq!(lints[0].error_code, ReportCode::LoopMayOverflow);
    assert_eq!(lints[0].level, LintLevel::Error);
    assert_eq!(lints[0].loc, (40, 50));
}
