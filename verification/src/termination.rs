//! Termination analysis for canonical counted loops.
//!
//! A canonical for-loop is an initialization block of exactly two statements
//! (a declaration, then a substitution of a numeric literal into the same
//! name) followed by a while whose condition is `counter < literal` and whose
//! body is a non-empty block. Along every simple path through the body, the
//! recognized steps `counter = counter + literal` and
//! `counter = counter - literal` are summed; a zero sum means the loop does
//! not progress, a negative one that the counter wraps around the field's
//! modulus. A lint is a warning while some path is safe, and an error once
//! every path is unsafe.

use num_bigint::BigInt;
use vstd::prelude::*;

use crate::ast::Expression;
use crate::ast::ExprV;
use crate::ast::ExpressionInfixOpcode;
use crate::ast::Statement;
use crate::ast::StmtV;
use crate::ast::clone_expr;
use crate::ast::clone_stmt;
use crate::ast::spec_stmt_meta;
use crate::ast::stmts_view;
use crate::cfg::Cfg;
use crate::cfg::Node;
use crate::cfg::NodeKind;
use crate::cfg::NodeKindV;
use crate::cfg::NodeV;
use crate::cfg::all_simple_paths;
use crate::cfg::assignments_to_x;
use crate::cfg::build_statement_flowgraph;
use crate::cfg::cfg_edges_of;
use crate::cfg::cfg_nodes_of;
use crate::cfg::lemma_path_in_bounds;
use crate::cfg::steps_to;
use crate::flowgraph::is_simple_path;
use crate::lint::Lint;
use crate::lint::LintLevel;
use crate::lint::ReportCode;
use crate::numeric::IntSign;
use crate::numeric::big_add;
use crate::numeric::big_clone;
use crate::numeric::big_from_u64;
use crate::numeric::big_neg;
use crate::numeric::big_sign;
use crate::numeric::big_value;

verus! {

/// A recognized canonical for-loop: counter name, initial and bound literals,
/// the loop condition and the loop body.
pub struct ForLoop {
    pub counter: String,
    pub init: BigInt,
    pub bound: BigInt,
    pub cond: Expression,
    pub loop_body: Statement,
}

pub ghost struct ForLoopV {
    pub counter: Seq<char>,
    pub init: int,
    pub bound: int,
    pub cond: ExprV,
    pub loop_body: StmtV,
}

impl View for ForLoop {
    type V = ForLoopV;

    open spec fn view(&self) -> ForLoopV {
        ForLoopV {
            counter: self.counter@,
            init: big_value(self.init),
            bound: big_value(self.bound),
            cond: self.cond@,
            loop_body: self.loop_body@,
        }
    }
}

/// The canonical for-loop shape, if the two statements have it: an
/// initialization block of exactly a declaration and a substitution
/// `counter = literal`, then a while with condition `counter < literal`
/// (strict, counter on the left) and a non-empty block as body.
pub open spec fn canonical_for(ss: Seq<StmtV>) -> Option<ForLoopV> {
    if ss.len() == 2 {
        match ss[1] {
            StmtV::While { cond, stmt: body, .. } => match *body {
                StmtV::Block { stmts: body_stmts, .. } => {
                    if body_stmts.len() > 0 {
                        match ss[0] {
                            StmtV::InitializationBlock { initializations: inits, .. } => {
                                if inits.len() == 2 && inits[0] matches StmtV::Declaration { .. } {
                                    match inits[1] {
                                        StmtV::Substitution {
                                            var: counter,
                                            rhe: ExprV::Number(_, init),
                                            ..
                                        } => match cond {
                                            ExprV::InfixOp { lhe, infix_op, rhe, .. } => {
                                                if infix_op == ExpressionInfixOpcode::Lesser
                                                    && (*lhe matches ExprV::Variable {
                                                    name,
                                                    ..
                                                } && name == counter) {
                                                    match *rhe {
                                                        ExprV::Number(_, bound) => Option::Some(
                                                            ForLoopV {
                                                                counter,
                                                                init,
                                                                bound,
                                                                cond,
                                                                loop_body: *body,
                                                            },
                                                        ),
                                                        _ => Option::None,
                                                    }
                                                } else {
                                                    Option::None
                                                }
                                            },
                                            _ => Option::None,
                                        },
                                        _ => Option::None,
                                    }
                                } else {
                                    Option::None
                                }
                            },
                            _ => Option::None,
                        }
                    } else {
                        Option::None
                    }
                },
                _ => Option::None,
            },
            _ => Option::None,
        }
    } else {
        Option::None
    }
}

/// Recognizes the canonical for-loop shape in a statement pair; anything else
/// yields no match and is not analyzed.
pub fn is_for_loop(statements: &Vec<Statement>) -> (r: Option<ForLoop>)
    ensures
        r is Some <==> canonical_for(stmts_view(statements@)) is Some,
        r matches Option::Some(fl) ==> fl@ == canonical_for(stmts_view(statements@))->Some_0,
{
    proof {
        reveal_with_fuel(crate::ast::stmt_view, 3);
        reveal_with_fuel(crate::ast::expr_view, 3);
        crate::ast::lemma_stmts_view(statements@);
    }
    if statements.len() != 2 {
        return Option::None;
    }
    let init_block = &statements[0];
    proof {
        assert(stmts_view(statements@)[0] == statements@[0]@);
        assert(stmts_view(statements@)[1] == statements@[1]@);
    }
    if let Statement::While { cond, stmt: body, .. } = &statements[1] {
        if let Statement::Block { stmts: body_stmts, .. } = &**body {
            proof {
                crate::ast::lemma_stmts_view(body_stmts@);
            }
            if body_stmts.len() > 0 {
                if let Statement::InitializationBlock { initializations: inits, .. } = init_block {
                    proof {
                        crate::ast::lemma_stmts_view(inits@);
                    }
                    if inits.len() == 2 {
                        if matches!(&inits[0], Statement::Declaration { .. }) {
                            if let Statement::Substitution { var: counter, rhe, .. } = &inits[1] {
                                if let Expression::Number(_, init) = rhe {
                                    if let Expression::InfixOp { lhe, infix_op, rhe: crhe, .. } =
                                        cond {
                                        if matches!(infix_op, ExpressionInfixOpcode::Lesser) {
                                            if let Expression::Variable { name, .. } = &**lhe {
                                                if crate::text::str_eq(
                                                    name.as_str(),
                                                    counter.as_str(),
                                                ) {
                                                    if let Expression::Number(_, bound) = &**crhe {
                                                        return Option::Some(
                                                            ForLoop {
                                                                counter: counter.clone(),
                                                                init: big_clone(init),
                                                                bound: big_clone(bound),
                                                                cond: clone_expr(cond),
                                                                loop_body: clone_stmt(&**body),
                                                            },
                                                        );
                                                    }
                                                }
                                            }
                                        }
                                    }
                                }
                            }
                        }
                    }
                }
            }
        }
    }
    Option::None
}

/// The verdict classes for the accumulated per-path delta of the counter.
#[derive(Clone, Copy, PartialEq, Eq, Structural, Debug)]
pub enum Monotonicity {
    Increasing,
    Decreasing,
    Constant,
    NotMonotonic,
}

/// The per-step delta a substitution vertex contributes, when its right-hand
/// side is exactly `counter + literal` or `counter - literal`; any other
/// shape contributes nothing.
pub open spec fn step_delta(counter: Seq<char>, n: NodeV) -> Option<int> {
    match n.kind {
        NodeKindV::Subst { rhe, .. } => match rhe {
            ExprV::InfixOp { lhe, infix_op, rhe: r2, .. } => {
                if *lhe matches ExprV::Variable { name, .. } && name == counter {
                    match *r2 {
                        ExprV::Number(_, v) => {
                            if infix_op == ExpressionInfixOpcode::Add {
                                Option::Some(v)
                            } else if infix_op == ExpressionInfixOpcode::Sub {
                                Option::Some(-v)
                            } else {
                                Option::None
                            }
                        },
                        _ => Option::None,
                    }
                } else {
                    Option::None
                }
            },
            _ => Option::None,
        },
        _ => Option::None,
    }
}

/// The accumulated delta of a step list: the sum of the recognized steps,
/// zero if none is recognized.
pub open spec fn steps_delta(counter: Seq<char>, steps: Seq<NodeV>) -> int
    decreases steps.len(),
{
    if steps.len() == 0 {
        0
    } else {
        steps_delta(counter, steps.subrange(0, steps.len() - 1)) + match step_delta(
            counter,
            steps[steps.len() - 1],
        ) {
            Option::Some(d) => d,
            Option::None => 0,
        }
    }
}

/// The lint a delta earns: none when positive, no-progress when zero,
/// may-overflow when negative.
pub open spec fn loop_verdict(delta: int) -> Option<ReportCode> {
    if delta == 0 {
        Option::Some(ReportCode::LoopNoProgress)
    } else if delta < 0 {
        Option::Some(ReportCode::LoopMayOverflow)
    } else {
        Option::None
    }
}

/// The step list a path through the body graph contributes, with the
/// single-vertex convention of `assignments_to_x`.
pub open spec fn path_steps(nodes: Seq<NodeV>, p: Seq<usize>, counter: Seq<char>) -> Seq<NodeV> {
    if nodes.len() == 1 {
        seq![nodes[0]]
    } else {
        steps_to(nodes, p, counter)
    }
}

/// Whether a path through the body graph is unsafe for the counter.
pub open spec fn unsafe_path(nodes: Seq<NodeV>, p: Seq<usize>, counter: Seq<char>) -> bool {
    loop_verdict(steps_delta(counter, path_steps(nodes, p, counter))) is Some
}

/// The short message of the no-progress lint.
pub open spec fn no_progress_msg() -> Seq<char> {
    "Loop does not progress"@
}

/// The short message of the may-overflow lint.
pub open spec fn may_overflow_msg() -> Seq<char> {
    "Loop may overflow: refer to Circom's docs on modular field arithmetic: https://docs.circom.io/circom-language/basic-operators/#field-elements"@
}

/// The span a step-list lint points at: the first step if there is one, the
/// loop body otherwise.
pub open spec fn steps_loc(fl: ForLoopV, steps: Seq<NodeV>) -> (int, int) {
    if steps.len() > 0 {
        (steps[0].meta.start, steps[0].meta.end)
    } else {
        (spec_stmt_meta(fl.loop_body).start, spec_stmt_meta(fl.loop_body).end)
    }
}

/// Analyzes one recognized for-loop.
pub struct TerminationAnalyser {
    for_loop: Option<ForLoop>,
}

impl TerminationAnalyser {
    /// The loop under analysis, if one was recognized.
    pub closed spec fn spec_for_loop(&self) -> Option<ForLoopV> {
        match self.for_loop {
            Option::Some(fl) => Option::Some(fl@),
            Option::None => Option::None,
        }
    }

    pub fn new(for_loop: Option<ForLoop>) -> (r: TerminationAnalyser)
        ensures
            r.spec_for_loop() == match for_loop {
                Option::Some(fl) => Option::Some(fl@),
                Option::None => Option::None::<ForLoopV>,
            },
    {
        TerminationAnalyser { for_loop }
    }

    /// Recognizes the per-step delta of one substitution vertex.
    fn eval_step(&self, counter: &str, step: &Node) -> (r: Option<BigInt>)
        ensures
            r is Some <==> step_delta(counter@, step@) is Some,
            r matches Option::Some(b) ==> big_value(b) == step_delta(counter@, step@)->Some_0,
    {
        proof {
            reveal_with_fuel(crate::ast::expr_view, 3);
        }
        if let NodeKind::Subst { rhe, .. } = &step.kind {
            if let Expression::InfixOp { lhe, infix_op, rhe: r2, .. } = rhe {
                if let Expression::Variable { name, .. } = &**lhe {
                    if crate::text::str_eq(name.as_str(), counter) {
                        if let Expression::Number(_, v) = &**r2 {
                            match infix_op {
                                ExpressionInfixOpcode::Add => {
                                    return Option::Some(big_clone(v));
                                },
                                ExpressionInfixOpcode::Sub => {
                                    return Option::Some(big_neg(v));
                                },
                                _ => {
                                    return Option::None;
                                },
                            }
                        }
                    }
                }
            }
        }
        Option::None
    }

    /// Classifies an accumulated delta: positive deltas increase the counter
    /// towards the strict upper bound, negative ones wrap around the field's
    /// modulus, zero makes no progress.
    fn analyse_monotonicty(&self, incr: &BigInt) -> (r: Monotonicity)
        ensures
            r == Monotonicity::Increasing <==> big_value(*incr) > 0,
            r == Monotonicity::Decreasing <==> big_value(*incr) < 0,
            r == Monotonicity::Constant <==> big_value(*incr) == 0,
    {
        match big_sign(incr) {
            IntSign::Positive => Monotonicity::Increasing,
            IntSign::Negative => Monotonicity::Decreasing,
            IntSign::Zero => Monotonicity::Constant,
        }
    }

    /// Sums the recognized steps of one path's step list and classifies the
    /// sum, returning the path's lint, if any, beside the summed delta.
    #[verifier::loop_isolation(false)]
    pub fn analyse_termination(&self, for_loop: &ForLoop, steps: &Vec<Node>) -> (r: (
        Option<Lint>,
        Option<BigInt>,
    ))
        ensures
            ({
                let delta = steps_delta(for_loop@.counter, steps@.map_values(|n: Node| n@));
                &&& r.1 matches Option::Some(b) && big_value(b) == delta
                &&& (r.0 is Some <==> loop_verdict(delta) is Some)
                &&& (r.0 matches Option::Some(l) ==> {
                    &&& l.error_code == loop_verdict(delta)->Some_0
                    &&& l.error_msg@ == (if delta == 0 {
                        no_progress_msg()
                    } else {
                        may_overflow_msg()
                    })
                    &&& l.msg@ == Seq::<char>::empty()
                    &&& l.loc == ({
                        let sl = steps_loc(for_loop@, steps@.map_values(|n: Node| n@));
                        (sl.0 as usize, sl.1 as usize)
                    })
                    &&& l.level == LintLevel::Warning
                })
            }),
    {
        let ghost stepsv = steps@.map_values(|n: Node| n@);
        let counter = &for_loop.counter;
        let mut incr: BigInt = big_from_u64(0);
        let mut i: usize = 0;
        while i < steps.len()
            invariant
                i <= steps@.len(),
                big_value(incr) == steps_delta(for_loop@.counter, stepsv.subrange(0, i as int)),
            decreases steps@.len() - i,
        {
            proof {
                let post = stepsv.subrange(0, i as int + 1);
                assert(post.subrange(0, post.len() - 1) =~= stepsv.subrange(0, i as int));
                assert(post[post.len() - 1] == stepsv[i as int]);
            }
            match self.eval_step(counter.as_str(), &steps[i]) {
                Option::Some(d) => {
                    incr = big_add(&incr, &d);
                },
                Option::None => {},
            }
            i += 1;
        }
        proof {
            assert(stepsv.subrange(0, stepsv.len() as int) =~= stepsv);
            reveal_strlit("");
            assert(""@ =~= Seq::<char>::empty());
        }
        let loc = if steps.len() > 0 {
            let first = &steps[0];
            (first.meta.start, first.meta.end)
        } else {
            let m = for_loop.loop_body.get_meta();
            (m.start, m.end)
        };
        match self.analyse_monotonicty(&incr) {
            Monotonicity::Constant => {
                let lint = Lint {
                    error_code: ReportCode::LoopNoProgress,
                    error_msg: "Loop does not progress".to_owned(),
                    loc,
                    msg: "".to_owned(),
                    level: LintLevel::Warning,
                };
                (Option::Some(lint), Option::Some(incr))
            },
            Monotonicity::Decreasing => {
                let lint = Lint {
                    error_code: ReportCode::LoopMayOverflow,
                    error_msg:
                        "Loop may overflow: refer to Circom's docs on modular field arithmetic: https://docs.circom.io/circom-language/basic-operators/#field-elements".to_owned(),
                    loc,
                    msg: "".to_owned(),
                    level: LintLevel::Warning,
                };
                (Option::Some(lint), Option::Some(incr))
            },
            _ => (Option::None, Option::Some(incr)),
        }
    }

    /// Builds the CFG of the loop body, enumerates every simple path from its
    /// entry to its last vertex, and collects one lint per unsafe path. The
    /// lints stay warnings while some path is safe; they are escalated to
    /// errors when every path is unsafe.
    #[verifier::loop_isolation(false)]
    pub fn analyse(&mut self) -> (r: Vec<Lint>)
        requires
            old(self).spec_for_loop() matches Option::Some(fl) ==> cfg_nodes_of(
                fl.loop_body,
            ).len() >= 1,
        ensures
            final(self).spec_for_loop() == old(self).spec_for_loop(),
            old(self).spec_for_loop() is None ==> r@.len() == 0,
            old(self).spec_for_loop() matches Option::Some(fl) ==> {
                let nodes = cfg_nodes_of(fl.loop_body);
                let edges = cfg_edges_of(fl.loop_body);
                let last = (nodes.len() - 1) as usize;
                &&& (r@.len() == 0 <==> forall|p: Seq<usize>|
                    #[trigger] is_simple_path(edges, p, 0, last) ==> !unsafe_path(
                        nodes,
                        p,
                        fl.counter,
                    ))
                &&& forall|i: int|
                    0 <= i < r@.len() ==> exists|p: Seq<usize>|
                        {
                            let steps = path_steps(nodes, p, fl.counter);
                            let delta = steps_delta(fl.counter, steps);
                            &&& #[trigger] is_simple_path(edges, p, 0, last)
                            &&& unsafe_path(nodes, p, fl.counter)
                            &&& (#[trigger] r@[i])@.error_code == loop_verdict(delta)->Some_0
                            &&& r@[i]@.error_msg == (if delta == 0 {
                                no_progress_msg()
                            } else {
                                may_overflow_msg()
                            })
                            &&& r@[i]@.msg == Seq::<char>::empty()
                            &&& r@[i]@.loc == steps_loc(fl, steps)
                        }
                &&& ((forall|p: Seq<usize>|
                    #[trigger] is_simple_path(edges, p, 0, last) ==> unsafe_path(
                        nodes,
                        p,
                        fl.counter,
                    )) ==> forall|i: int| 0 <= i < r@.len() ==> (#[trigger] r@[i])@.level
                    == LintLevel::Error)
                &&& ((exists|p: Seq<usize>|
                    #[trigger] is_simple_path(edges, p, 0, last) && !unsafe_path(
                        nodes,
                        p,
                        fl.counter,
                    )) ==> forall|i: int| 0 <= i < r@.len() ==> (#[trigger] r@[i])@.level
                    == LintLevel::Warning)
            },
    {
        let for_loop = match &self.for_loop {
            Option::Some(fl) => fl,
            Option::None => {
                return Vec::new();
            },
        };
        let ghost flv = for_loop@;
        let graph = build_statement_flowgraph(&for_loop.loop_body);
        let ghost nodes = graph.nodes_view();
        let ghost edges = graph.edges();
        let ghost last = (nodes.len() - 1) as usize;
        proof {
            crate::cfg::lemma_wf_edge_bounds(&graph);
        }
        let paths = all_simple_paths(&graph);
        let mut lints: Vec<Lint> = Vec::new();
        let mut k: usize = 0;
        while k < paths.len()
            invariant
                k <= paths@.len(),
                lints@.len() <= k,
                (lints@.len() == k) <==> (forall|j: int|
                    0 <= j < k ==> unsafe_path(nodes, #[trigger] paths@[j]@, flv.counter)),
                (lints@.len() == 0) <==> (forall|j: int|
                    0 <= j < k ==> !unsafe_path(nodes, #[trigger] paths@[j]@, flv.counter)),
                forall|i: int|
                    0 <= i < lints@.len() ==> exists|p: Seq<usize>|
                        {
                            let steps = path_steps(nodes, p, flv.counter);
                            let delta = steps_delta(flv.counter, steps);
                            &&& #[trigger] is_simple_path(edges, p, 0, last)
                            &&& unsafe_path(nodes, p, flv.counter)
                            &&& (#[trigger] lints@[i])@.error_code == loop_verdict(
                                delta,
                            )->Some_0
                            &&& lints@[i]@.error_msg == (if delta == 0 {
                                no_progress_msg()
                            } else {
                                may_overflow_msg()
                            })
                            &&& lints@[i]@.msg == Seq::<char>::empty()
                            &&& lints@[i]@.loc == steps_loc(flv, steps)
                            &&& lints@[i]@.level == LintLevel::Warning
                        },
            decreases paths@.len() - k,
        {
            let path = &paths[k];
            proof {
                assert(is_simple_path(edges, paths@[k as int]@, 0, last));
                lemma_path_in_bounds(nodes.len() as int, edges, path@, 0, last);
            }
            let steps = assignments_to_x(&graph, path, for_loop.counter.as_str());
            let (lint, _incr) = self.analyse_termination(for_loop, &steps);
            match lint {
                Option::Some(l) => {
                    lints.push(l);
                },
                Option::None => {},
            }
            k += 1;
        }
        // If every path is unsafe, escalate the lints to errors.
        if lints.len() == paths.len() {
            proof {
                assert forall|p: Seq<usize>|
                    #[trigger] is_simple_path(edges, p, 0, last) implies unsafe_path(
                    nodes,
                    p,
                    flv.counter,
                ) by {
                    let kk = choose|kk: int|
                        0 <= kk < paths@.len() && #[trigger] paths@[kk]@ == p;
                    assert(unsafe_path(nodes, paths@[kk]@, flv.counter));
                }
            }
            let mut escalated: Vec<Lint> = Vec::new();
            let mut i: usize = 0;
            while i < lints.len()
                invariant
                    i <= lints@.len(),
                    escalated@.len() == i,
                    forall|j: int|
                        0 <= j < i ==> {
                            let l = #[trigger] escalated@[j]@;
                            let o = lints@[j]@;
                            &&& l.error_code == o.error_code
                            &&& l.error_msg == o.error_msg
                            &&& l.msg == o.msg
                            &&& l.loc == o.loc
                            &&& l.level == LintLevel::Error
                        },
                decreases lints@.len() - i,
            {
                let l = &lints[i];
                escalated.push(
                    Lint {
                        error_code: l.error_code,
                        error_msg: l.error_msg.clone(),
                        loc: l.loc,
                        msg: l.msg.clone(),
                        level: LintLevel::Error,
                    },
                );
                i += 1;
            }
            return escalated;
        }
        proof {
            if lints@.len() == 0 {
                assert forall|p: Seq<usize>|
                    #[trigger] is_simple_path(edges, p, 0, last) implies !unsafe_path(
                    nodes,
                    p,
                    flv.counter,
                ) by {
                    let kk = choose|kk: int|
                        0 <= kk < paths@.len() && #[trigger] paths@[kk]@ == p;
                    assert(!unsafe_path(nodes, paths@[kk]@, flv.counter));
                }
            }
        }
        lints
    }
}

} // verus!
