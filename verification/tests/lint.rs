use num_bigint::BigInt;
use type_analysis::ast::{
    Access, AssignOp, Expression, Meta, Program, SignalType, Statement, Template, VariableType,
};
use type_analysis::lint::{
    report_lints, AnonComponentLinter, ConstantSignalLinter, LinterKind, LintLevel, ReportCode,
    StaticLinter,
};

fn meta(elem_id: usize, start: usize, end: usize) -> Meta {
    Meta { elem_id, start, end, component_inference: None }
}

fn empty_block(elem_id: usize) -> Statement {
    Statement::Block { meta: meta(elem_id, 0, 0), stmts: vec![] }
}

/// The program behind the anonymous-component fixture: a template `A` with
/// inputs `in1`, `in2` and outputs `out1`, `out2`, and a main template that
/// declares `component a = A()`, feeds `a.in1 <== in[0]`, `a.in2 <== in[1]`
/// and captures only `salida <== a.out2`.
fn anon_component_program() -> Program {
    let source = "in[0] in[1]".to_string();
    let decl_a = Statement::Declaration {
        meta: Meta {
            elem_id: 10,
            start: 234,
            end: 251,
            component_inference: Some("A".to_string()),
        },
        xtype: VariableType::Component,
        name: "a".to_string(),
        dimensions: vec![],
        is_constant: false,
    };
    let feed_in1 = Statement::Substitution {
        meta: meta(11, 260, 280),
        var: "a".to_string(),
        access: vec![Access::ComponentAccess("in1".to_string())],
        op: AssignOp::AssignConstraintSignal,
        rhe: Expression::Variable {
            meta: meta(12, 0, 5),
            name: "in".to_string(),
            access: vec![Access::ArrayAccess(Expression::Number(meta(13, 3, 4), BigInt::from(0u64)))],
        },
    };
    let feed_in2 = Statement::Substitution {
        meta: meta(14, 281, 300),
        var: "a".to_string(),
        access: vec![Access::ComponentAccess("in2".to_string())],
        op: AssignOp::AssignConstraintSignal,
        rhe: Expression::Variable {
            meta: meta(15, 6, 11),
            name: "in".to_string(),
            access: vec![Access::ArrayAccess(Expression::Number(meta(16, 9, 10), BigInt::from(1u64)))],
        },
    };
    let capture_out2 = Statement::Substitution {
        meta: meta(17, 301, 320),
        var: "salida".to_string(),
        access: vec![],
        op: AssignOp::AssignConstraintSignal,
        rhe: Expression::Variable {
            meta: meta(18, 0, 1),
            name: "a".to_string(),
            access: vec![Access::ComponentAccess("out2".to_string())],
        },
    };
    let main_body = Statement::Block {
        meta: meta(19, 200, 400),
        stmts: vec![decl_a, feed_in1, feed_in2, capture_out2],
    };
    Program {
        file_id: 0,
        source,
        templates: vec![
            Template {
                name: "A".to_string(),
                body: empty_block(20),
                inputs: vec!["in1".to_string(), "in2".to_string()],
                outputs: vec!["out1".to_string(), "out2".to_string()],
            },
            Template {
                name: "Main".to_string(),
                body: main_body,
                inputs: vec![],
                outputs: vec![],
            },
        ],
    }
}

/// The program behind the constant-signal fixture: an intermediate signal
/// `aux` whose declaration the constant-folding pass marked constant, later
/// assigned the literal `42`.
fn constant_signal_program() -> Program {
    let source = "42".to_string();
    let decl_aux = Statement::Declaration {
        meta: meta(30, 70, 87),
        xtype: VariableType::Signal(SignalType::Intermediate),
        name: "aux".to_string(),
        dimensions: vec![],
        is_constant: true,
    };
    let assign_aux = Statement::Substitution {
        meta: meta(31, 90, 110),
        var: "aux".to_string(),
        access: vec![],
        op: AssignOp::AssignSignal,
        rhe: Expression::Number(meta(32, 0, 2), BigInt::from(42u64)),
    };
    let body = Statement::Block { meta: meta(33, 60, 200), stmts: vec![decl_aux, assign_aux] };
    Program {
        file_id: 0,
        source,
        templates: vec![Template {
            name: "Main".to_string(),
            body,
            inputs: vec![],
            outputs: vec![],
        }],
    }
}

#[test]
fn static_linter() {
    // The anonymous-component case: uncaptured outputs render as `_`, inputs
    // in declared order.
    let program = anon_component_program();
    let linters = vec![
        LinterKind::Anon(AnonComponentLinter::new()),
        LinterKind::Constant(ConstantSignalLinter::new()),
    ];
    let mut analyser = StaticLinter::new(program, linters);
    let lints = analyser.lint();
    assert_eq!(lints.len(), 1);
    assert_eq!(lints[0].error_code, ReportCode::AnonymousCompLint);
    assert_eq!(lints[0].error_msg, "Anonymous component: `a`");
    assert_eq!(lints[0].loc, (234, 251));
    assert_eq!(lints[0].msg, "You can use (_, salida) <== A()(in[0], in[1]);");
    assert_eq!(lints[0].level, LintLevel::Note);

    // The constant-signal case: suggest a variable, with the literal text of
    // the assigned expression.
    let program = constant_signal_program();
    let linters = vec![
        LinterKind::Anon(AnonComponentLinter::new()),
        LinterKind::Constant(ConstantSignalLinter::new()),
    ];
    let mut analyser = StaticLinter::new(program, linters);
    let lints = analyser.lint();
    assert_eq!(lints.len(), 1);
    assert_eq!(lints[0].error_code, ReportCode::ConstantSignalLint);
    assert_eq!(lints[0].error_msg, "Constant signal: `aux`");
    assert_eq!(lints[0].loc, (70, 87));
    assert_eq!(lints[0].msg, "You should define `aux` as a variable instead: `var aux = 42`");
    assert_eq!(lints[0].level, LintLevel::Note);
}

#[test]
fn non_constant_signals_are_not_flagged() {
    let mut program = constant_signal_program();
    if let Statement::Block { stmts, .. } = &mut program.templates[0].body {
        if let Statement::Declaration { is_constant, .. } = &mut stmts[0] {
            *is_constant = false;
        }
    }
    let linters = vec![LinterKind::Constant(ConstantSignalLinter::new())];
    let mut analyser = StaticLinter::new(program, linters);
    assert_eq!(analyser.lint().len(), 0);
}

#[test]
fn report_lints_maps_style_rules_to_notes() {
    let program = constant_signal_program();
    let reports = report_lints(&program).unwrap();
    assert_eq!(reports.len(), 1);
    assert_eq!(reports[0].error_code, ReportCode::ConstantSignalLint);
    assert_eq!(reports[0].error_msg, "Constant signal: `aux`");
    assert_eq!(reports[0].level, LintLevel::Note);
    assert_eq!(reports[0].loc, (70, 87));
    assert_eq!(reports[0].file_id, 0);
}

#[test]
fn report_lints_is_none_for_clean_programs() {
    let program = Program {
        file_id: 0,
        source: String::new(),
        templates: vec![Template {
            name: "Main".to_string(),
            body: empty_block(1),
            inputs: vec![],
            outputs: vec![],
        }],
    };
    assert!(report_lints(&program).is_none());
}
