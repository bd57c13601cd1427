use num_bigint::BigInt;
use type_analysis::ast::{
    Access, AssignOp, Expression, ExpressionInfixOpcode, Meta, Program, SignalType, Statement,
    Template, VariableType,
};
use type_analysis::cfg::{
    build_flowgraph, build_statement_flowgraph, check_double_assignment, lint_all_paths_to_signal,
    NodeKind, PathAnalyser, PathAnalysisErr,
};

fn meta(elem_id: usize, start: usize, end: usize) -> Meta {
    Meta { elem_id, start, end, component_inference: None }
}

fn num(elem_id: usize, v: u64) -> Expression {
    Expression::Number(meta(elem_id, 0, 0), BigInt::from(v))
}

fn decl(elem_id: usize, start: usize, end: usize, name: &str, xtype: VariableType) -> Statement {
    Statement::Declaration {
        meta: meta(elem_id, start, end),
        xtype,
        name: name.to_string(),
        dimensions: vec![],
        is_constant: false,
    }
}

fn sub(elem_id: usize, start: usize, end: usize, var: &str, rhe: Expression) -> Statement {
    Statement::Substitution {
        meta: meta(elem_id, start, end),
        var: var.to_string(),
        access: vec![],
        op: AssignOp::AssignConstraintSignal,
        rhe,
    }
}

fn block(elem_id: usize, start: usize, end: usize, stmts: Vec<Statement>) -> Statement {
    Statement::Block { meta: meta(elem_id, start, end), stmts }
}

fn one_template_program(name: &str, body: Statement) -> Program {
    Program {
        file_id: 0,
        source: String::new(),
        templates: vec![Template {
            name: name.to_string(),
            body,
            inputs: vec![],
            outputs: vec![],
        }],
    }
}

#[test]
fn builder_counts_leaves_once() {
    // A declaration, a substitution and an assert become one vertex each.
    let body = block(
        0,
        0,
        100,
        vec![
            decl(1, 1, 5, "x", VariableType::Var),
            sub(2, 6, 10, "x", num(20, 1)),
            Statement::Assert { meta: meta(3, 11, 15), arg: num(21, 1) },
        ],
    );
    let g = build_statement_flowgraph(&body);
    assert_eq!(g.node_count(), 3);
    assert_eq!(g.edge_list(), vec![(0, 1), (1, 2)]);
}

#[test]
fn builder_empty_block_adds_nothing() {
    let body = block(0, 0, 10, vec![]);
    let g = build_statement_flowgraph(&body);
    assert_eq!(g.node_count(), 0);
    assert_eq!(g.edge_list(), vec![]);
}

#[test]
fn builder_while_adds_two_nodes_and_back_edge() {
    // decl; while { sub } lowers to decl, loop-head, body, loop-exit.
    let body = block(
        0,
        0,
        100,
        vec![
            decl(1, 1, 5, "i", VariableType::Var),
            Statement::While {
                meta: meta(2, 6, 50),
                cond: num(22, 1),
                stmt: Box::new(block(3, 7, 49, vec![sub(4, 8, 12, "i", num(23, 1))])),
            },
        ],
    );
    let g = build_statement_flowgraph(&body);
    assert_eq!(g.node_count(), 4);
    // forward edges, the body-exit edge, the back edge, the zero-iteration
    // edge, in insertion order
    assert_eq!(g.edge_list(), vec![(0, 1), (1, 2), (2, 3), (3, 1), (1, 3)]);
    assert!(matches!(g.get_node(1).kind, NodeKind::LoopHead));
    assert!(matches!(g.get_node(3).kind, NodeKind::LoopExit));
    // both vertices of the loop carry the While statement's identity token
    assert_eq!(g.get_node(1).meta.elem_id, 2);
    assert_eq!(g.get_node(3).meta.elem_id, 2);
}

#[test]
fn builder_if_without_else_falls_through() {
    let body = block(
        0,
        0,
        100,
        vec![
            decl(1, 1, 5, "x", VariableType::Var),
            Statement::IfThenElse {
                meta: meta(2, 6, 50),
                cond: num(24, 1),
                if_case: Box::new(block(3, 7, 49, vec![sub(4, 8, 12, "x", num(25, 1))])),
                else_case: None,
            },
            Statement::Assert { meta: meta(5, 60, 70), arg: num(26, 1) },
        ],
    );
    let g = build_statement_flowgraph(&body);
    // decl, branch, then-substitution, assert
    assert_eq!(g.node_count(), 4);
    // the join takes both the fall-through edge from the declaration and the
    // then-branch's exit
    assert_eq!(g.edge_list(), vec![(0, 1), (1, 2), (0, 3), (2, 3)]);
}

#[test]
fn rebuilding_gives_identical_graphs() {
    let body = block(
        0,
        0,
        100,
        vec![
            decl(1, 1, 5, "i", VariableType::Var),
            Statement::While {
                meta: meta(2, 6, 50),
                cond: num(27, 1),
                stmt: Box::new(block(3, 7, 49, vec![sub(4, 8, 12, "i", num(28, 1))])),
            },
        ],
    );
    let g1 = build_statement_flowgraph(&body);
    let g2 = build_statement_flowgraph(&body);
    assert_eq!(g1.node_count(), g2.node_count());
    assert_eq!(g1.edge_list(), g2.edge_list());
    for i in 0..g1.node_count() {
        assert_eq!(g1.get_node(i).meta.elem_id, g2.get_node(i).meta.elem_id);
        assert_eq!(g1.get_node(i).meta.start, g2.get_node(i).meta.start);
        assert_eq!(g1.get_node(i).meta.end, g2.get_node(i).meta.end);
    }
}

#[test]
fn unassigned_on_skipping_path_is_flagged() {
    // x is assigned only inside the conditional: the path that skips it
    // leaves x unassigned.
    let body = block(
        0,
        0,
        100,
        vec![
            decl(1, 10, 20, "x", VariableType::Signal(SignalType::Output)),
            Statement::IfThenElse {
                meta: meta(2, 30, 60),
                cond: num(29, 1),
                if_case: Box::new(block(3, 31, 59, vec![sub(4, 35, 40, "x", num(30, 1))])),
                else_case: None,
            },
            Statement::Assert { meta: meta(5, 70, 80), arg: num(31, 1) },
        ],
    );
    let program = one_template_program("T", body);
    let query = meta(9, 72, 78);
    let lint = lint_all_paths_to_signal(&program, "T", "x", &query).unwrap();
    assert_eq!(lint.path_err, PathAnalysisErr::Unassigned);
    assert_eq!(lint.name, "x");
    assert_eq!(lint.loc, (72, 78));
    assert_eq!(
        lint.msg,
        "Signal `x` is not initialized on all execution paths and would be given a zero value where no assignment has been made to it. Consider assigning a value to it explicitly."
    );
}

#[test]
fn exactly_once_on_every_path_is_clean() {
    let body = block(
        0,
        0,
        100,
        vec![
            decl(1, 10, 20, "x", VariableType::Signal(SignalType::Output)),
            sub(2, 30, 40, "x", num(32, 1)),
            Statement::Assert { meta: meta(3, 70, 80), arg: num(33, 1) },
        ],
    );
    let program = one_template_program("T", body);
    let query = meta(9, 72, 78);
    assert!(lint_all_paths_to_signal(&program, "T", "x", &query).is_none());
}

#[test]
fn double_assignment_is_flagged_at_declaration() {
    let body = block(
        0,
        0,
        100,
        vec![
            decl(1, 10, 20, "x", VariableType::Signal(SignalType::Intermediate)),
            sub(2, 30, 40, "x", num(34, 1)),
            sub(3, 45, 55, "x", num(35, 2)),
            Statement::Assert { meta: meta(4, 70, 80), arg: num(36, 1) },
        ],
    );
    let program = one_template_program("T", body);
    let query = meta(9, 72, 78);
    let lint = lint_all_paths_to_signal(&program, "T", "x", &query).unwrap();
    assert_eq!(lint.path_err, PathAnalysisErr::MultipleAssignment);
    // the reported location is the declaration's span
    assert_eq!(lint.loc, (10, 20));
    assert_eq!(lint.msg, "Signal x was already assigned a value and multiple assignments are not allowed.");
}

#[test]
fn input_signals_are_exempt() {
    // An input signal is never assigned, and never flagged.
    let body = block(
        0,
        0,
        100,
        vec![
            decl(1, 10, 20, "x", VariableType::Signal(SignalType::Input)),
            Statement::Assert { meta: meta(2, 70, 80), arg: num(37, 1) },
        ],
    );
    let program = one_template_program("T", body);
    let query = meta(9, 72, 78);
    assert!(lint_all_paths_to_signal(&program, "T", "x", &query).is_none());
}

#[test]
fn unassigned_var_is_flagged_at_declaration() {
    let body = block(
        0,
        0,
        100,
        vec![
            decl(1, 10, 20, "v", VariableType::Var),
            Statement::Assert { meta: meta(2, 70, 80), arg: num(38, 1) },
        ],
    );
    let program = one_template_program("T", body);
    let query = meta(9, 72, 78);
    let lint = lint_all_paths_to_signal(&program, "T", "v", &query).unwrap();
    assert_eq!(lint.path_err, PathAnalysisErr::Unassigned);
    assert_eq!(lint.loc, (10, 20));
    assert_eq!(
        lint.msg,
        "Var `v` is not initialized on all execution paths and would be given a zero value where no assignment has been made to it. Consider assigning a value to it explicitly."
    );
}

#[test]
fn check_double_assignment_counts_paths() {
    let body = block(
        0,
        0,
        100,
        vec![
            decl(1, 10, 20, "x", VariableType::Var),
            sub(2, 30, 40, "x", num(39, 1)),
            sub(3, 45, 55, "x", num(40, 2)),
        ],
    );
    let program = one_template_program("T", body);
    // up to the first substitution, x is assigned exactly once
    assert!(check_double_assignment(&program, "T", &meta(2, 30, 40)));
    // up to the second, the single path holds two assignments
    assert!(!check_double_assignment(&program, "T", &meta(3, 45, 55)));
}

#[test]
fn tracker_flags_reachable_and_repeated_constraints() {
    let body = block(
        0,
        0,
        100,
        vec![
            Statement::ConstraintEquality { meta: meta(1, 10, 20), lhe: num(41, 1), rhe: num(42, 2) },
            Statement::ConstraintEquality { meta: meta(2, 30, 40), lhe: num(43, 3), rhe: num(44, 4) },
        ],
    );
    let program = one_template_program("T", body);
    let mut pa = PathAnalyser::new(&program);
    // first constraint of s: recorded
    assert!(pa.constraint_signal_assignment("T", &meta(1, 10, 20), "s").is_ok());
    // second location is reachable from the first: flagged
    let err = pa.constraint_signal_assignment("T", &meta(2, 30, 40), "s").unwrap_err();
    assert_eq!(err.name, "s");
    assert_eq!(err.msg, "Signal s is assigned to multiple times");
    assert_eq!(err.path_err, PathAnalysisErr::MultipleAssignment);
    // a different symbol at the same place is fine
    assert!(pa.constraint_signal_assignment("T", &meta(2, 30, 40), "t").is_ok());
    // the same vertex twice for one symbol: a loop body revisited
    let err2 = pa.constraint_signal_assignment("T", &meta(2, 30, 40), "t").unwrap_err();
    assert_eq!(err2.name, "t");
}

#[test]
fn build_flowgraph_finds_template_by_name() {
    let body = block(0, 0, 100, vec![decl(1, 1, 5, "x", VariableType::Var)]);
    let program = Program {
        file_id: 0,
        source: String::new(),
        templates: vec![
            Template {
                name: "A".to_string(),
                body: block(5, 0, 10, vec![]),
                inputs: vec![],
                outputs: vec![],
            },
            Template { name: "B".to_string(), body, inputs: vec![], outputs: vec![] },
        ],
    };
    let g = build_flowgraph(&program, "B");
    assert_eq!(g.node_count(), 1);
    let g2 = build_flowgraph(&program, "A");
    assert_eq!(g2.node_count(), 0);
}
