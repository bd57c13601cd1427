//! Control-flow graphs over statement trees, and the per-path
//! definite/multiple-assignment analysis.
//!
//! A statement tree is lowered into a directed graph: vertex data lives in an
//! index-aligned vector beside the `petgraph` graph, and `lower_stmt` is the
//! mathematical description of the lowering, so that a built graph is a pure
//! function of the statement tree it came from.

use vstd::prelude::*;

use crate::ast::AssignOp;
use crate::ast::Expression;
use crate::ast::ExprV;
use crate::ast::Meta;
use crate::ast::MetaV;
use crate::ast::Program;
use crate::ast::SignalType;
use crate::ast::Statement;
use crate::ast::StmtV;
use crate::ast::TemplateV;
use crate::ast::VariableType;
use crate::ast::clone_expr;
use crate::ast::lemma_stmts_view;
use crate::ast::spec_find_template;
use crate::ast::spec_stmt_meta;
use crate::ast::stmts_view;
use crate::flowgraph::FlowGraph;
use crate::flowgraph::graph_add_edge;
use crate::flowgraph::graph_add_node;
use crate::flowgraph::graph_edges;
use crate::flowgraph::graph_new;
use crate::flowgraph::graph_node_count;
use crate::flowgraph::graph_simple_paths;
use crate::flowgraph::is_simple_path;

verus! {

/// What a CFG vertex records of the statement occurrence it stands for.
pub enum NodeKind {
    Decl { name: String, xtype: VariableType },
    Subst { var: String, op: AssignOp, rhe: Expression },
    Branch,
    LoopHead,
    LoopExit,
    Other,
}

/// A CFG vertex: the span and identity token of its statement, and the part
/// of the statement the analyses read.
pub struct Node {
    pub meta: Meta,
    pub kind: NodeKind,
}

pub ghost enum NodeKindV {
    Decl { name: Seq<char>, xtype: VariableType },
    Subst { var: Seq<char>, op: AssignOp, rhe: ExprV },
    Branch,
    LoopHead,
    LoopExit,
    Other,
}

pub ghost struct NodeV {
    pub meta: MetaV,
    pub kind: NodeKindV,
}

impl View for NodeKind {
    type V = NodeKindV;

    open spec fn view(&self) -> NodeKindV {
        match self {
            NodeKind::Decl { name, xtype } => NodeKindV::Decl { name: name@, xtype: *xtype },
            NodeKind::Subst { var, op, rhe } => NodeKindV::Subst {
                var: var@,
                op: *op,
                rhe: rhe@,
            },
            NodeKind::Branch => NodeKindV::Branch,
            NodeKind::LoopHead => NodeKindV::LoopHead,
            NodeKind::LoopExit => NodeKindV::LoopExit,
            NodeKind::Other => NodeKindV::Other,
        }
    }
}

impl View for Node {
    type V = NodeV;

    open spec fn view(&self) -> NodeV {
        NodeV { meta: self.meta@, kind: self.kind@ }
    }
}

/// A control-flow graph: the `petgraph` graph carries the edges, `nodes`
/// carries the vertex data, index-aligned with the graph's vertices.
pub struct Cfg {
    graph: FlowGraph,
    nodes: Vec<Node>,
}

impl Cfg {
    /// The vertex data, by vertex index.
    pub closed spec fn nodes_view(&self) -> Seq<NodeV> {
        self.nodes@.map_values(|n: Node| n@)
    }

    /// The directed edges, in insertion order.
    pub closed spec fn edges(&self) -> Seq<(usize, usize)> {
        graph_edges(self.graph)
    }

    /// The graph and the vertex vector agree, and every edge endpoint is a
    /// vertex.
    pub closed spec fn wf(&self) -> bool {
        &&& graph_node_count(self.graph) == self.nodes@.len()
        &&& forall|k: int|
            0 <= k < self.edges().len() ==> (#[trigger] self.edges()[k]).0 < self.nodes@.len()
                && self.edges()[k].1 < self.nodes@.len()
    }

    /// How many vertices the graph holds.
    pub fn node_count(&self) -> (n: usize)
        ensures
            n == self.nodes_view().len(),
    {
        self.nodes.len()
    }

    /// The vertex data of vertex `i`.
    pub fn get_node(&self, i: usize) -> (r: &Node)
        requires
            i < self.nodes_view().len(),
        ensures
            r@ == self.nodes_view()[i as int],
    {
        &self.nodes[i]
    }

    /// The edges, in insertion order.
    pub fn edge_list(&self) -> (r: Vec<(usize, usize)>)
        ensures
            r@ == self.edges(),
    {
        crate::flowgraph::graph_edge_list(&self.graph)
    }
}

/// One edge from every parent to `child`, in parent order.
pub open spec fn edges_from(parents: Seq<usize>, child: usize) -> Seq<(usize, usize)> {
    parents.map_values(|p: usize| (p, child))
}

/// The outcome of lowering: the vertex data and edges so far, and the exit
/// set to hang the next sibling statement onto.
pub ghost struct Lowered {
    pub nodes: Seq<NodeV>,
    pub edges: Seq<(usize, usize)>,
    pub exits: Seq<usize>,
}

/// Lowering one new leaf vertex: an edge from every parent to it; it becomes
/// the sole exit.
pub open spec fn lower_leaf(
    meta: MetaV,
    kind: NodeKindV,
    nodes: Seq<NodeV>,
    edges: Seq<(usize, usize)>,
    parents: Seq<usize>,
) -> Lowered {
    let child = nodes.len() as usize;
    Lowered {
        nodes: nodes.push(NodeV { meta, kind }),
        edges: edges + edges_from(parents, child),
        exits: seq![child],
    }
}

/// The lowering rules, one statement at a time:
/// declarations, substitutions and the control-irrelevant leaves become one
/// vertex each; blocks thread the exit set through their children; a
/// conditional forks at a branch vertex and joins the branch exits (the
/// branch vertex's own parents fall through when there is no else branch); a
/// loop gets a head vertex and an exit vertex holding the same statement,
/// edges body-exits -> exit, exit -> head (the back edge) and head -> exit
/// (zero iterations).
pub open spec fn lower_stmt(
    s: StmtV,
    nodes: Seq<NodeV>,
    edges: Seq<(usize, usize)>,
    parents: Seq<usize>,
) -> Lowered
    decreases s,
{
    match s {
        StmtV::Declaration { meta, xtype, name, .. } => lower_leaf(
            meta,
            NodeKindV::Decl { name, xtype },
            nodes,
            edges,
            parents,
        ),
        StmtV::Substitution { meta, var, op, rhe, .. } => lower_leaf(
            meta,
            NodeKindV::Subst { var, op, rhe },
            nodes,
            edges,
            parents,
        ),
        StmtV::Block { stmts, .. } => lower_stmts(stmts, nodes, edges, parents),
        StmtV::InitializationBlock { initializations, .. } => lower_stmts(
            initializations,
            nodes,
            edges,
            parents,
        ),
        StmtV::IfThenElse { meta, if_case, else_case, .. } => {
            let cond = nodes.len() as usize;
            let nodes1 = nodes.push(NodeV { meta, kind: NodeKindV::Branch });
            let edges1 = edges + edges_from(parents, cond);
            let t = lower_stmt(*if_case, nodes1, edges1, seq![cond]);
            match else_case {
                Option::Some(e) => {
                    let u = lower_stmt(*e, t.nodes, t.edges, seq![cond]);
                    Lowered { nodes: u.nodes, edges: u.edges, exits: u.exits + t.exits }
                },
                Option::None => Lowered {
                    nodes: t.nodes,
                    edges: t.edges,
                    exits: parents + t.exits,
                },
            }
        },
        StmtV::While { meta, stmt, .. } => {
            let head = nodes.len() as usize;
            let nodes1 = nodes.push(NodeV { meta, kind: NodeKindV::LoopHead });
            let edges1 = edges + edges_from(parents, head);
            let b = lower_stmt(*stmt, nodes1, edges1, seq![head]);
            let exit = b.nodes.len() as usize;
            Lowered {
                nodes: b.nodes.push(NodeV { meta, kind: NodeKindV::LoopExit }),
                edges: b.edges + edges_from(b.exits, exit) + seq![(exit, head), (head, exit)],
                exits: seq![exit],
            }
        },
        _ => lower_leaf(spec_stmt_meta(s), NodeKindV::Other, nodes, edges, parents),
    }
}

/// Lowers a sequence of sibling statements, threading the exit set through.
pub open spec fn lower_stmts(
    ss: Seq<StmtV>,
    nodes: Seq<NodeV>,
    edges: Seq<(usize, usize)>,
    parents: Seq<usize>,
) -> Lowered
    decreases ss,
{
    if ss.len() == 0 {
        Lowered { nodes, edges, exits: parents }
    } else {
        let first = lower_stmt(ss[0], nodes, edges, parents);
        lower_stmts(ss.subrange(1, ss.len() as int), first.nodes, first.edges, first.exits)
    }
}

/// The vertex data of the graph a statement tree is lowered to.
pub open spec fn cfg_nodes_of(s: StmtV) -> Seq<NodeV> {
    lower_stmt(s, Seq::empty(), Seq::empty(), Seq::empty()).nodes
}

/// The edges of the graph a statement tree is lowered to.
pub open spec fn cfg_edges_of(s: StmtV) -> Seq<(usize, usize)> {
    lower_stmt(s, Seq::empty(), Seq::empty(), Seq::empty()).edges
}

/// The recursive lowering step: adds the vertices and edges for `s` to `cfg`
/// with the given parent set, returning the new exit set, exactly as
/// `lower_stmt` describes.
#[verifier::loop_isolation(false)]
#[verifier::rlimit(60)]
fn build_into(cfg: &mut Cfg, s: &Statement, parents: Vec<usize>) -> (r: Vec<usize>)
    requires
        old(cfg).wf(),
        forall|j: int| 0 <= j < parents@.len() ==> parents@[j] < old(cfg).nodes_view().len(),
    ensures
        final(cfg).wf(),
        ({
            let out = lower_stmt(s@, old(cfg).nodes_view(), old(cfg).edges(), parents@);
            &&& final(cfg).nodes_view() == out.nodes
            &&& final(cfg).edges() == out.edges
            &&& r@ == out.exits
        }),
        forall|j: int| 0 <= j < r@.len() ==> r@[j] < final(cfg).nodes_view().len(),
        final(cfg).nodes_view().len() >= old(cfg).nodes_view().len(),
    decreases *s,
{
    match s {
        Statement::Block { stmts, .. } => {
            let ghost ssv = stmts_view(stmts@);
            let ghost nodes0 = cfg.nodes_view();
            let ghost edges0 = cfg.edges();
            let ghost parents0 = parents@;
            proof {
                lemma_stmts_view(stmts@);
                assert(ssv.subrange(0, ssv.len() as int) =~= ssv);
            }
            let mut parent = parents;
            let mut i: usize = 0;
            while i < stmts.len()
                invariant
                    i <= stmts.len(),
                    cfg.wf(),
                    forall|j: int|
                        0 <= j < parent@.len() ==> parent@[j] < cfg.nodes_view().len(),
                    cfg.nodes_view().len() >= nodes0.len(),
                    lower_stmts(ssv, nodes0, edges0, parents0) == lower_stmts(
                        ssv.subrange(i as int, ssv.len() as int),
                        cfg.nodes_view(),
                        cfg.edges(),
                        parent@,
                    ),
                decreases stmts.len() - i,
            {
                proof {
                    assert(decreases_to!(*s => (*s)->Block_stmts@[i as int]));
                    assert((*s)->Block_stmts == *stmts);
                    let tail = ssv.subrange(i as int, ssv.len() as int);
                    assert(tail[0] == stmts@[i as int]@);
                    assert(tail.subrange(1, tail.len() as int) =~= ssv.subrange(
                        i as int + 1,
                        ssv.len() as int,
                    ));
                }
                parent = build_into(cfg, &stmts[i], parent);
                i += 1;
            }
            proof {
                assert(ssv.subrange(ssv.len() as int, ssv.len() as int) =~= Seq::<
                    StmtV,
                >::empty());
            }
            parent
        },
        Statement::InitializationBlock { initializations, .. } => {
            let ghost ssv = stmts_view(initializations@);
            let ghost nodes0 = cfg.nodes_view();
            let ghost edges0 = cfg.edges();
            let ghost parents0 = parents@;
            proof {
                lemma_stmts_view(initializations@);
                assert(ssv.subrange(0, ssv.len() as int) =~= ssv);
            }
            let mut parent = parents;
            let mut i: usize = 0;
            while i < initializations.len()
                invariant
                    i <= initializations.len(),
                    cfg.wf(),
                    forall|j: int|
                        0 <= j < parent@.len() ==> parent@[j] < cfg.nodes_view().len(),
                    cfg.nodes_view().len() >= nodes0.len(),
                    lower_stmts(ssv, nodes0, edges0, parents0) == lower_stmts(
                        ssv.subrange(i as int, ssv.len() as int),
                        cfg.nodes_view(),
                        cfg.edges(),
                        parent@,
                    ),
                decreases initializations.len() - i,
            {
                proof {
                    assert(decreases_to!(
                        *s => (*s)->InitializationBlock_initializations@[i as int]));
                    assert((*s)->InitializationBlock_initializations == *initializations);
                    let tail = ssv.subrange(i as int, ssv.len() as int);
                    assert(tail[0] == initializations@[i as int]@);
                    assert(tail.subrange(1, tail.len() as int) =~= ssv.subrange(
                        i as int + 1,
                        ssv.len() as int,
                    ));
                }
                parent = build_into(cfg, &initializations[i], parent);
                i += 1;
            }
            proof {
                assert(ssv.subrange(ssv.len() as int, ssv.len() as int) =~= Seq::<
                    StmtV,
                >::empty());
            }
            parent
        },
        Statement::IfThenElse { meta, if_case, else_case, .. } => {
            let cond = add_node_with_edges(
                cfg,
                Node { meta: meta.clone(), kind: NodeKind::Branch },
                &parents,
            );
            let mut cond_parent: Vec<usize> = Vec::new();
            cond_parent.push(cond);
            proof {
                assert(cond_parent@ =~= seq![cond]);
            }
            let then_exits = build_into(cfg, &*if_case, cond_parent);
            match else_case {
                Option::Some(else_block) => {
                    let mut cond_parent2: Vec<usize> = Vec::new();
                    cond_parent2.push(cond);
                    proof {
                        assert(cond_parent2@ =~= seq![cond]);
                    }
                    let mut ret = build_into(cfg, &*else_block, cond_parent2);
                    let mut k: usize = 0;
                    let ghost ret0 = ret@;
                    while k < then_exits.len()
                        invariant
                            k <= then_exits.len(),
                            ret@ == ret0 + then_exits@.subrange(0, k as int),
                        decreases then_exits.len() - k,
                    {
                        ret.push(then_exits[k]);
                        proof {
                            assert(ret0 + then_exits@.subrange(0, k as int + 1) =~= (ret0
                                + then_exits@.subrange(0, k as int)).push(
                                then_exits@[k as int],
                            ));
                        }
                        k += 1;
                    }
                    proof {
                        assert(then_exits@.subrange(0, then_exits@.len() as int)
                            =~= then_exits@);
                    }
                    ret
                },
                Option::None => {
                    let mut ret = parents;
                    let mut k: usize = 0;
                    let ghost ret0 = ret@;
                    while k < then_exits.len()
                        invariant
                            k <= then_exits.len(),
                            ret@ == ret0 + then_exits@.subrange(0, k as int),
                        decreases then_exits.len() - k,
                    {
                        ret.push(then_exits[k]);
                        proof {
                            assert(ret0 + then_exits@.subrange(0, k as int + 1) =~= (ret0
                                + then_exits@.subrange(0, k as int)).push(
                                then_exits@[k as int],
                            ));
                        }
                        k += 1;
                    }
                    proof {
                        assert(then_exits@.subrange(0, then_exits@.len() as int)
                            =~= then_exits@);
                    }
                    ret
                },
            }
        },
        Statement::While { meta, stmt, .. } => {
            let head = add_node_with_edges(
                cfg,
                Node { meta: meta.clone(), kind: NodeKind::LoopHead },
                &parents,
            );
            let mut head_parent: Vec<usize> = Vec::new();
            head_parent.push(head);
            proof {
                assert(head_parent@ =~= seq![head]);
            }
            let body_exits = build_into(cfg, &*stmt, head_parent);
            let exit = add_node_with_edges(
                cfg,
                Node { meta: meta.clone(), kind: NodeKind::LoopExit },
                &body_exits,
            );
            add_edge_checked(cfg, exit, head);
            add_edge_checked(cfg, head, exit);
            let mut ret: Vec<usize> = Vec::new();
            ret.push(exit);
            proof {
                assert(ret@ =~= seq![exit]);
            }
            ret
        },
        Statement::Declaration { meta, xtype, name, .. } => {
            let child = add_node_with_edges(
                cfg,
                Node {
                    meta: meta.clone(),
                    kind: NodeKind::Decl { name: name.clone(), xtype: *xtype },
                },
                &parents,
            );
            let mut ret: Vec<usize> = Vec::new();
            ret.push(child);
            proof {
                assert(ret@ =~= seq![child]);
            }
            ret
        },
        Statement::Substitution { meta, var, op, rhe, .. } => {
            let child = add_node_with_edges(
                cfg,
                Node {
                    meta: meta.clone(),
                    kind: NodeKind::Subst {
                        var: var.clone(),
                        op: *op,
                        rhe: clone_expr(rhe),
                    },
                },
                &parents,
            );
            let mut ret: Vec<usize> = Vec::new();
            ret.push(child);
            proof {
                assert(ret@ =~= seq![child]);
            }
            ret
        },
        _ => {
            let child = add_node_with_edges(
                cfg,
                Node { meta: s.get_meta().clone(), kind: NodeKind::Other },
                &parents,
            );
            let mut ret: Vec<usize> = Vec::new();
            ret.push(child);
            proof {
                assert(ret@ =~= seq![child]);
            }
            ret
        },
    }
}

/// Adds one vertex with an edge from every parent to it, as `lower_leaf`
/// describes for its vertex and edges.
#[verifier::loop_isolation(false)]
fn add_node_with_edges(cfg: &mut Cfg, node: Node, parents: &Vec<usize>) -> (child: usize)
    requires
        old(cfg).wf(),
        forall|j: int| 0 <= j < parents@.len() ==> parents@[j] < old(cfg).nodes_view().len(),
    ensures
        final(cfg).wf(),
        child == old(cfg).nodes_view().len(),
        final(cfg).nodes_view() == old(cfg).nodes_view().push(node@),
        final(cfg).edges() == old(cfg).edges() + edges_from(parents@, child),
{
    let child = graph_add_node(&mut cfg.graph);
    cfg.nodes.push(node);
    proof {
        assert(cfg.nodes_view() =~= old(cfg).nodes_view().push(node@));
        assert(cfg.edges() + edges_from(parents@.subrange(0, 0), child) =~= cfg.edges());
        assert(graph_node_count(cfg.graph) == cfg.nodes@.len());
        assert forall|k: int| 0 <= k < cfg.edges().len() implies (#[trigger] cfg.edges()[k]).0
            < cfg.nodes@.len() && cfg.edges()[k].1 < cfg.nodes@.len() by {
            assert(old(cfg).edges()[k] == cfg.edges()[k]);
            assert((#[trigger] old(cfg).edges()[k]).0 < old(cfg).nodes@.len());
        }
        assert(cfg.wf());
    }
    let mut j: usize = 0;
    while j < parents.len()
        invariant
            cfg.wf(),
            j <= parents.len(),
            cfg.nodes_view() == old(cfg).nodes_view().push(node@),
            cfg.edges() == old(cfg).edges() + edges_from(parents@.subrange(0, j as int), child),
        decreases parents.len() - j,
    {
        graph_add_edge(&mut cfg.graph, parents[j], child);
        proof {
            assert(edges_from(parents@.subrange(0, j as int + 1), child) =~= edges_from(
                parents@.subrange(0, j as int),
                child,
            ).push((parents@[j as int], child)));
            assert(cfg.edges() =~= old(cfg).edges() + edges_from(
                parents@.subrange(0, j as int + 1),
                child,
            ));
        }
        j += 1;
    }
    proof {
        assert(parents@.subrange(0, parents@.len() as int) =~= parents@);
    }
    child
}

/// Adds the edge `(a, b)`.
fn add_edge_checked(cfg: &mut Cfg, a: usize, b: usize)
    requires
        old(cfg).wf(),
        a < old(cfg).nodes_view().len(),
        b < old(cfg).nodes_view().len(),
    ensures
        final(cfg).wf(),
        final(cfg).nodes_view() == old(cfg).nodes_view(),
        final(cfg).edges() == old(cfg).edges().push((a, b)),
{
    graph_add_edge(&mut cfg.graph, a, b);
    proof {
        assert(cfg.edges() =~= old(cfg).edges().push((a, b)));
        assert forall|k: int| 0 <= k < cfg.edges().len() implies (#[trigger] cfg.edges()[k]).0
            < cfg.nodes@.len() && cfg.edges()[k].1 < cfg.nodes@.len() by {
            if k < old(cfg).edges().len() {
                assert((#[trigger] old(cfg).edges()[k]).0 < old(cfg).nodes@.len());
            } else {
                assert(cfg.edges()[k] == (a, b));
            }
        }
    }
}

/// Builds the control-flow graph of the template named `t`.
pub fn build_flowgraph(program: &Program, t: &str) -> (cfg: Cfg)
    requires
        spec_find_template(program@.templates, t@) is Some,
    ensures
        cfg.wf(),
        cfg.nodes_view() == cfg_nodes_of(spec_find_template(program@.templates, t@)->Some_0.body),
        cfg.edges() == cfg_edges_of(spec_find_template(program@.templates, t@)->Some_0.body),
{
    let template = match program.get_template(t) {
        Option::Some(t) => t,
        Option::None => vstd::pervasive::unreached(),
    };
    build_statement_flowgraph(&template.body)
}

/// Builds the control-flow graph of one statement tree.
pub fn build_statement_flowgraph(s: &Statement) -> (cfg: Cfg)
    ensures
        cfg.wf(),
        cfg.nodes_view() == cfg_nodes_of(s@),
        cfg.edges() == cfg_edges_of(s@),
{
    let mut cfg = Cfg { graph: graph_new(), nodes: Vec::new() };
    proof {
        assert(cfg.nodes_view() =~= Seq::<NodeV>::empty());
    }
    let _ = build_into(&mut cfg, s, Vec::new());
    cfg
}

/// Every simple path from the entry vertex to the last vertex, as
/// `petgraph`'s enumeration returns them: each returned path is simple, and
/// every simple path is returned.
#[verifier::rlimit(30)]
pub fn all_simple_paths(g: &Cfg) -> (r: Vec<Vec<usize>>)
    requires
        g.wf(),
        g.nodes_view().len() >= 1,
    ensures
        ({
            let last = (g.nodes_view().len() - 1) as usize;
            &&& forall|k: int|
                0 <= k < r@.len() ==> is_simple_path(g.edges(), #[trigger] r@[k]@, 0, last)
            &&& forall|p: Seq<usize>|
                is_simple_path(g.edges(), p, 0, last) ==> exists|k: int|
                    0 <= k < r@.len() && #[trigger] r@[k]@ == p
        }),
{
    let last = g.nodes.len() - 1;
    graph_simple_paths(&g.graph, 0, last)
}

/// How many vertices lowering one statement emits: one per leaf, one per
/// conditional plus its branches, two per loop plus its body, and the sum of
/// the children for the two block kinds.
pub open spec fn lowered_count(s: StmtV) -> nat
    decreases s,
{
    match s {
        StmtV::Block { stmts, .. } => lowered_count_seq(stmts),
        StmtV::InitializationBlock { initializations, .. } => lowered_count_seq(initializations),
        StmtV::IfThenElse { if_case, else_case, .. } => 1 + lowered_count(*if_case) + (
        match else_case {
            Option::Some(e) => lowered_count(*e),
            Option::None => 0nat,
        }),
        StmtV::While { stmt, .. } => 2 + lowered_count(*stmt),
        _ => 1,
    }
}

pub open spec fn lowered_count_seq(ss: Seq<StmtV>) -> nat
    decreases ss,
{
    if ss.len() == 0 {
        0
    } else {
        lowered_count(ss[0]) + lowered_count_seq(ss.subrange(1, ss.len() as int))
    }
}

/// Every edge of the sequence points at vertices, and runs forward — from a
/// lower to a higher index — except the loop back edges: an edge from a
/// loop-exit vertex back to its loop-head, which always stands beside the
/// forward edge between the same two vertices.
pub open spec fn edges_wf(nodes: Seq<NodeV>, edges: Seq<(usize, usize)>) -> bool {
    forall|k: int|
        0 <= k < edges.len() ==> {
            let e = #[trigger] edges[k];
            &&& e.0 < nodes.len()
            &&& e.1 < nodes.len()
            &&& (e.0 < e.1 || (e.1 < e.0 && nodes[e.1 as int].kind is LoopHead
                && nodes[e.0 as int].kind is LoopExit && edges.contains((e.1, e.0))))
        }
}

/// The inductive shape of one lowering step: vertices and edges only grow at
/// the end, exits point at vertices, and the forward-but-for-back-edges shape
/// of the edge list is kept.
pub proof fn lemma_lower_shape(
    s: StmtV,
    nodes: Seq<NodeV>,
    edges: Seq<(usize, usize)>,
    parents: Seq<usize>,
)
    requires
        nodes.len() + lowered_count(s) <= usize::MAX,
        forall|j: int| 0 <= j < parents.len() ==> parents[j] < nodes.len(),
        edges_wf(nodes, edges),
    ensures
        ({
            let out = lower_stmt(s, nodes, edges, parents);
            &&& out.nodes.len() == nodes.len() + lowered_count(s)
            &&& forall|j: int| 0 <= j < nodes.len() ==> #[trigger] out.nodes[j] == nodes[j]
            &&& out.edges.len() >= edges.len()
            &&& forall|j: int| 0 <= j < edges.len() ==> #[trigger] out.edges[j] == edges[j]
            &&& forall|j: int| 0 <= j < out.exits.len() ==> out.exits[j] < out.nodes.len()
            &&& edges_wf(out.nodes, out.edges)
        }),
    decreases s,
{
    let out = lower_stmt(s, nodes, edges, parents);
    match s {
        StmtV::Block { stmts, .. } => {
            lemma_lower_seq_shape(stmts, nodes, edges, parents);
        },
        StmtV::InitializationBlock { initializations, .. } => {
            lemma_lower_seq_shape(initializations, nodes, edges, parents);
        },
        StmtV::IfThenElse { meta, if_case, else_case, .. } => {
            let cond = nodes.len() as usize;
            let nodes1 = nodes.push(NodeV { meta, kind: NodeKindV::Branch });
            let edges1 = edges + edges_from(parents, cond);
            assert(edges_wf(nodes1, edges1)) by {
                lemma_edges_wf_extend(nodes, edges, parents, cond, NodeV { meta, kind: NodeKindV::Branch });
            }
            lemma_lower_shape(*if_case, nodes1, edges1, seq![cond]);
            let t = lower_stmt(*if_case, nodes1, edges1, seq![cond]);
            match else_case {
                Option::Some(e) => {
                    lemma_lower_shape(*e, t.nodes, t.edges, seq![cond]);
                },
                Option::None => {},
            }
        },
        StmtV::While { meta, stmt, .. } => {
            let head = nodes.len() as usize;
            let nodes1 = nodes.push(NodeV { meta, kind: NodeKindV::LoopHead });
            let edges1 = edges + edges_from(parents, head);
            assert(edges_wf(nodes1, edges1)) by {
                lemma_edges_wf_extend(
                    nodes,
                    edges,
                    parents,
                    head,
                    NodeV { meta, kind: NodeKindV::LoopHead },
                );
            }
            lemma_lower_shape(*stmt, nodes1, edges1, seq![head]);
            let b = lower_stmt(*stmt, nodes1, edges1, seq![head]);
            let exit = b.nodes.len() as usize;
            let nodes2 = b.nodes.push(NodeV { meta, kind: NodeKindV::LoopExit });
            assert(edges_wf(nodes2, b.edges + edges_from(b.exits, exit))) by {
                lemma_edges_wf_extend(
                    b.nodes,
                    b.edges,
                    b.exits,
                    exit,
                    NodeV { meta, kind: NodeKindV::LoopExit },
                );
            }
            let mid = b.edges + edges_from(b.exits, exit);
            let fin = mid + seq![(exit, head), (head, exit)];
            assert(nodes2[head as int].kind is LoopHead) by {
                assert(nodes1[head as int] == NodeV { meta, kind: NodeKindV::LoopHead });
                assert(b.nodes[head as int] == nodes1[head as int]);
            }
            assert(nodes2[exit as int].kind is LoopExit);
            assert(fin.contains((head, exit))) by {
                assert(fin[fin.len() - 1] == (head, exit));
            }
            assert(edges_wf(nodes2, fin)) by {
                assert forall|k: int| 0 <= k < fin.len() implies {
                    let e = #[trigger] fin[k];
                    &&& e.0 < nodes2.len()
                    &&& e.1 < nodes2.len()
                    &&& (e.0 < e.1 || (e.1 < e.0 && nodes2[e.1 as int].kind is LoopHead
                        && nodes2[e.0 as int].kind is LoopExit && fin.contains((e.1, e.0))))
                } by {
                    if k < mid.len() {
                        assert(fin[k] == mid[k]);
                        let e = mid[k];
                        if !(e.0 < e.1) {
                            assert(mid.contains((e.1, e.0)));
                            let w = choose|w: int|
                                0 <= w < mid.len() && mid[w] == (e.1, e.0);
                            assert(fin[w] == (e.1, e.0));
                        }
                    } else if k == mid.len() {
                        assert(fin[k] == (exit, head));
                    } else {
                        assert(fin[k] == (head, exit));
                    }
                }
            }
        },
        _ => {
            let child = nodes.len() as usize;
            lemma_edges_wf_extend(nodes, edges, parents, child, out.nodes[child as int]);
        },
    }
}

/// The same shape, for a sibling sequence.
pub proof fn lemma_lower_seq_shape(
    ss: Seq<StmtV>,
    nodes: Seq<NodeV>,
    edges: Seq<(usize, usize)>,
    parents: Seq<usize>,
)
    requires
        nodes.len() + lowered_count_seq(ss) <= usize::MAX,
        forall|j: int| 0 <= j < parents.len() ==> parents[j] < nodes.len(),
        edges_wf(nodes, edges),
    ensures
        ({
            let out = lower_stmts(ss, nodes, edges, parents);
            &&& out.nodes.len() == nodes.len() + lowered_count_seq(ss)
            &&& forall|j: int| 0 <= j < nodes.len() ==> #[trigger] out.nodes[j] == nodes[j]
            &&& out.edges.len() >= edges.len()
            &&& forall|j: int| 0 <= j < edges.len() ==> #[trigger] out.edges[j] == edges[j]
            &&& forall|j: int| 0 <= j < out.exits.len() ==> out.exits[j] < out.nodes.len()
            &&& edges_wf(out.nodes, out.edges)
        }),
    decreases ss,
{
    let out = lower_stmts(ss, nodes, edges, parents);
    if ss.len() > 0 {
        lemma_lower_shape(ss[0], nodes, edges, parents);
        let first = lower_stmt(ss[0], nodes, edges, parents);
        lemma_lower_seq_shape(ss.subrange(1, ss.len() as int), first.nodes, first.edges, first.exits);
    }
}

/// Hanging one fresh vertex under in-range parents keeps the edge shape: all
/// new edges run forward to the new vertex.
pub proof fn lemma_edges_wf_extend(
    nodes: Seq<NodeV>,
    edges: Seq<(usize, usize)>,
    parents: Seq<usize>,
    child: usize,
    node: NodeV,
)
    requires
        edges_wf(nodes, edges),
        child == nodes.len(),
        nodes.len() < usize::MAX,
        forall|j: int| 0 <= j < parents.len() ==> parents[j] < nodes.len(),
    ensures
        edges_wf(nodes.push(node), edges + edges_from(parents, child)),
{
    let nodes2 = nodes.push(node);
    let edges2 = edges + edges_from(parents, child);
    assert forall|k: int| 0 <= k < edges2.len() implies {
        let e = #[trigger] edges2[k];
        &&& e.0 < nodes2.len()
        &&& e.1 < nodes2.len()
        &&& (e.0 < e.1 || (e.1 < e.0 && nodes2[e.1 as int].kind is LoopHead && nodes2[
            e.0 as int].kind is LoopExit && edges2.contains((e.1, e.0))))
    } by {
        if k < edges.len() {
            assert(edges2[k] == edges[k]);
            let e = edges[k];
            if !(e.0 < e.1) {
                assert(edges.contains((e.1, e.0)));
                let w = choose|w: int| 0 <= w < edges.len() && edges[w] == (e.1, e.0);
                assert(edges2[w] == (e.1, e.0));
            }
        } else {
            assert(edges2[k] == edges_from(parents, child)[k - edges.len()]);
            assert(edges_from(parents, child)[k - edges.len()] == (
                parents[k - edges.len()],
                child,
            ));
        }
    }
}

/// Law: lowering emits the vertices of each statement exactly once — a built
/// graph has exactly `lowered_count` vertices, a While statement always
/// adding exactly two.
pub proof fn lemma_cfg_node_count(s: StmtV)
    requires
        lowered_count(s) <= usize::MAX,
    ensures
        cfg_nodes_of(s).len() == lowered_count(s),
{
    lemma_lower_shape(s, Seq::empty(), Seq::empty(), Seq::empty());
}

/// Law: a built graph's edges run forward in lowering order, except the loop
/// back edges: an edge from a loop-exit vertex back to its loop-head, each
/// standing beside the forward edge between the same two vertices. In
/// particular the entry vertex has no incoming edge from any vertex it
/// precedes, other than the back edge of a loop it heads.
pub proof fn lemma_cfg_edges_forward(s: StmtV)
    requires
        lowered_count(s) <= usize::MAX,
    ensures
        edges_wf(cfg_nodes_of(s), cfg_edges_of(s)),
{
    lemma_lower_shape(s, Seq::empty(), Seq::empty(), Seq::empty());
}

/// Law: lowering is a pure function of the statement tree, so rebuilding a
/// graph from the same tree yields a structurally identical graph: the same
/// vertex data and the same edge list.
pub proof fn lemma_rebuild_identical(c1: Cfg, c2: Cfg, s: StmtV)
    requires
        c1.nodes_view() == cfg_nodes_of(s),
        c1.edges() == cfg_edges_of(s),
        c2.nodes_view() == cfg_nodes_of(s),
        c2.edges() == cfg_edges_of(s),
    ensures
        c1.nodes_view() == c2.nodes_view(),
        c1.edges() == c2.edges(),
{
}

/// Whether vertex `n` declares `sym`.
pub open spec fn is_decl_of(n: NodeV, sym: Seq<char>) -> bool {
    n.kind matches NodeKindV::Decl { name, .. } && name == sym
}

/// Whether vertex `n` substitutes into `sym`.
pub open spec fn is_sub_to(n: NodeV, sym: Seq<char>) -> bool {
    n.kind matches NodeKindV::Subst { var, .. } && var == sym
}

/// How many vertices of `path` substitute into `sym`.
pub open spec fn sub_count(nodes: Seq<NodeV>, path: Seq<usize>, sym: Seq<char>) -> nat
    decreases path.len(),
{
    if path.len() == 0 {
        0
    } else {
        sub_count(nodes, path.subrange(0, path.len() - 1), sym) + if is_sub_to(
            nodes[path[path.len() - 1] as int],
            sym,
        ) {
            1nat
        } else {
            0nat
        }
    }
}

/// Whether some vertex of `path` declares `sym`.
pub open spec fn declared_on(nodes: Seq<NodeV>, path: Seq<usize>, sym: Seq<char>) -> bool {
    exists|i: int| 0 <= i < path.len() && is_decl_of(nodes[#[trigger] path[i] as int], sym)
}

/// How many vertices of `path` substitute into `sym` after its last
/// declaration.
pub open spec fn subs_since_decl(nodes: Seq<NodeV>, path: Seq<usize>, sym: Seq<char>) -> nat
    decreases path.len(),
{
    if path.len() == 0 {
        0
    } else if is_decl_of(nodes[path[path.len() - 1] as int], sym) {
        0
    } else {
        subs_since_decl(nodes, path.subrange(0, path.len() - 1), sym) + if is_sub_to(
            nodes[path[path.len() - 1] as int],
            sym,
        ) {
            1nat
        } else {
            0nat
        }
    }
}

/// The vertex of the last declaration of `sym` on `path`, if any.
pub open spec fn last_decl_of(nodes: Seq<NodeV>, path: Seq<usize>, sym: Seq<char>) -> Option<
    NodeV,
>
    decreases path.len(),
{
    if path.len() == 0 {
        Option::None
    } else if is_decl_of(nodes[path[path.len() - 1] as int], sym) {
        Option::Some(nodes[path[path.len() - 1] as int])
    } else {
        last_decl_of(nodes, path.subrange(0, path.len() - 1), sym)
    }
}

/// Every substitution on `path` is preceded by a declaration of its target on
/// the same path: what type checking guarantees of any path the analysis
/// walks.
pub open spec fn well_scoped(nodes: Seq<NodeV>, path: Seq<usize>) -> bool {
    forall|i: int|
        0 <= i < path.len() ==> (nodes[#[trigger] path[i] as int].kind matches NodeKindV::Subst {
            var,
            ..
        } ==> declared_on(nodes, path.subrange(0, i), var))
}

/// The per-path assignment verdict for one symbol.
#[derive(Clone, Copy, PartialEq, Eq, Structural, Debug)]
pub enum AssignStatus {
    Unassigned,
    AssignedOnce,
    MultiplyAssigned,
}

/// The two per-path assignment errors.
#[derive(Clone, Copy, PartialEq, Eq, Structural, Debug)]
pub enum PathAnalysisErr {
    Unassigned,
    MultipleAssignment,
}

/// What the per-path state machine reports of one symbol: its declared kind,
/// the span of its (last) declaration, and its final assignment status.
pub struct AssignVal {
    pub xtype: VariableType,
    pub loc: (usize, usize),
    pub status: AssignStatus,
}

/// The status that `n` substitutions since the declaration give.
pub open spec fn status_of_count(n: nat) -> AssignStatus {
    if n == 0 {
        AssignStatus::Unassigned
    } else if n == 1 {
        AssignStatus::AssignedOnce
    } else {
        AssignStatus::MultiplyAssigned
    }
}

/// Runs the per-path assignment state machine over `path`, watching `sym`:
/// a declaration (re)sets the state to `Unassigned`, the first substitution
/// after it moves to `AssignedOnce`, any further one to `MultiplyAssigned`.
#[verifier::loop_isolation(false)]
fn run_path_analysis(cfg: &Cfg, path: &Vec<usize>, sym: &str) -> (r: Option<AssignVal>)
    requires
        cfg.wf(),
        forall|i: int| 0 <= i < path@.len() ==> path@[i] < cfg.nodes_view().len(),
    ensures
        r is Some <==> declared_on(cfg.nodes_view(), path@, sym@),
        r matches Option::Some(v) ==> {
            let decl = last_decl_of(cfg.nodes_view(), path@, sym@)->Some_0;
            &&& v.xtype == decl.kind->Decl_xtype
            &&& v.loc == (decl.meta.start as usize, decl.meta.end as usize)
            &&& v.status == status_of_count(subs_since_decl(cfg.nodes_view(), path@, sym@))
        },
{
    let ghost nodes = cfg.nodes_view();
    let mut state: Option<AssignVal> = Option::None;
    let mut i: usize = 0;
    while i < path.len()
        invariant
            i <= path@.len(),
            state is Some <==> declared_on(nodes, path@.subrange(0, i as int), sym@),
            state matches Option::Some(v) ==> {
                let decl = last_decl_of(nodes, path@.subrange(0, i as int), sym@)->Some_0;
                &&& last_decl_of(nodes, path@.subrange(0, i as int), sym@) is Some
                &&& v.xtype == decl.kind->Decl_xtype
                &&& v.loc == (decl.meta.start as usize, decl.meta.end as usize)
                &&& v.status == status_of_count(
                    subs_since_decl(nodes, path@.subrange(0, i as int), sym@),
                )
            },
        decreases path@.len() - i,
    {
        proof {
            let pre = path@.subrange(0, i as int);
            let post = path@.subrange(0, i as int + 1);
            assert(post.subrange(0, post.len() - 1) =~= pre);
            assert(post[post.len() - 1] == path@[i as int]);
            if declared_on(nodes, pre, sym@) {
                let w = choose|k: int| 0 <= k < pre.len() && is_decl_of(
                    nodes[#[trigger] pre[k] as int],
                    sym@,
                );
                assert(post[w] == pre[w]);
                assert(declared_on(nodes, post, sym@));
            }
            if declared_on(nodes, post, sym@) && !is_decl_of(
                nodes[path@[i as int] as int],
                sym@,
            ) {
                let w = choose|k: int| 0 <= k < post.len() && is_decl_of(
                    nodes[#[trigger] post[k] as int],
                    sym@,
                );
                assert(w < pre.len());
                assert(pre[w] == post[w]);
                assert(declared_on(nodes, pre, sym@));
            }
        }
        let node = cfg.get_node(path[i]);
        match &node.kind {
            NodeKind::Decl { name, xtype } => {
                if crate::text::str_eq(name.as_str(), sym) {
                    state = Option::Some(
                        AssignVal {
                            xtype: *xtype,
                            loc: (node.meta.start, node.meta.end),
                            status: AssignStatus::Unassigned,
                        },
                    );
                }
            },
            NodeKind::Subst { var, .. } => {
                if crate::text::str_eq(var.as_str(), sym) {
                    state = match state {
                        Option::Some(v) => Option::Some(
                            AssignVal {
                                xtype: v.xtype,
                                loc: v.loc,
                                status: match v.status {
                                    AssignStatus::Unassigned => AssignStatus::AssignedOnce,
                                    AssignStatus::AssignedOnce => AssignStatus::MultiplyAssigned,
                                    AssignStatus::MultiplyAssigned => {
                                        AssignStatus::MultiplyAssigned
                                    },
                                },
                            },
                        ),
                        Option::None => Option::None,
                    };
                }
            },
            _ => {},
        }
        i += 1;
    }
    proof {
        assert(path@.subrange(0, path@.len() as int) =~= path@);
    }
    state
}

/// Whether the span of `n`'s statement fully encloses the span of `m`.
pub open spec fn span_contains(n: NodeV, m: MetaV) -> bool {
    n.meta.start <= m.start && n.meta.end >= m.end
}

/// The first vertex at or after `i` whose span encloses `m`.
pub open spec fn span_node_from(nodes: Seq<NodeV>, m: MetaV, i: int) -> Option<int>
    decreases nodes.len() - i,
    when 0 <= i <= nodes.len()
{
    if i >= nodes.len() {
        Option::None
    } else if span_contains(nodes[i], m) {
        Option::Some(i)
    } else {
        span_node_from(nodes, m, i + 1)
    }
}

/// The first vertex whose span encloses `m`: how a queried location that has
/// no vertex of its own is resolved.
pub open spec fn span_node_of(nodes: Seq<NodeV>, m: MetaV) -> Option<int> {
    span_node_from(nodes, m, 0)
}

/// The first vertex at or after `i` holding the statement with identity
/// token `id`.
pub open spec fn id_node_from(nodes: Seq<NodeV>, id: int, i: int) -> Option<int>
    decreases nodes.len() - i,
    when 0 <= i <= nodes.len()
{
    if i >= nodes.len() {
        Option::None
    } else if nodes[i].meta.elem_id == id {
        Option::Some(i)
    } else {
        id_node_from(nodes, id, i + 1)
    }
}

/// The first vertex holding the statement with identity token `id`.
pub open spec fn id_node_of(nodes: Seq<NodeV>, id: int) -> Option<int> {
    id_node_from(nodes, id, 0)
}

/// Finds the first vertex whose span encloses `m`.
#[verifier::loop_isolation(false)]
fn find_span_node(cfg: &Cfg, m: &Meta) -> (r: Option<usize>)
    requires
        cfg.wf(),
    ensures
        match r {
            Option::Some(k) => k < cfg.nodes_view().len() && span_node_of(cfg.nodes_view(), m@)
                == Option::Some(k as int),
            Option::None => span_node_of(cfg.nodes_view(), m@) is None,
        },
{
    let ghost nodes = cfg.nodes_view();
    let mut i: usize = 0;
    while i < cfg.node_count()
        invariant
            0 <= i <= nodes.len(),
            span_node_of(nodes, m@) == span_node_from(nodes, m@, i as int),
        decreases nodes.len() - i,
    {
        let n = cfg.get_node(i);
        if n.meta.start <= m.start && n.meta.end >= m.end {
            return Option::Some(i);
        }
        i += 1;
    }
    Option::None
}

/// Finds the first vertex holding the statement with `m`'s identity token.
#[verifier::loop_isolation(false)]
fn find_id_node(cfg: &Cfg, m: &Meta) -> (r: Option<usize>)
    requires
        cfg.wf(),
    ensures
        match r {
            Option::Some(k) => k < cfg.nodes_view().len() && id_node_of(
                cfg.nodes_view(),
                m@.elem_id,
            ) == Option::Some(k as int),
            Option::None => id_node_of(cfg.nodes_view(), m@.elem_id) is None,
        },
{
    let ghost nodes = cfg.nodes_view();
    let mut i: usize = 0;
    while i < cfg.node_count()
        invariant
            0 <= i <= nodes.len(),
            id_node_of(nodes, m@.elem_id) == id_node_from(nodes, m@.elem_id, i as int),
        decreases nodes.len() - i,
    {
        let n = cfg.get_node(i);
        if n.meta.elem_id == m.elem_id {
            return Option::Some(i);
        }
        i += 1;
    }
    Option::None
}

/// On a well-formed graph, every edge endpoint is a vertex.
pub proof fn lemma_wf_edge_bounds(g: &Cfg)
    requires
        g.wf(),
    ensures
        forall|k: int|
            0 <= k < g.edges().len() ==> (#[trigger] g.edges()[k]).0 < g.nodes_view().len()
                && g.edges()[k].1 < g.nodes_view().len(),
{
}

/// On a well-formed graph, every vertex of a simple path is a vertex of the
/// graph.
#[verifier::rlimit(30)]
pub proof fn lemma_path_in_bounds(
    nodes_len: int,
    edges: Seq<(usize, usize)>,
    p: Seq<usize>,
    from: usize,
    to: usize,
)
    requires
        is_simple_path(edges, p, from, to),
        from < nodes_len,
        forall|k: int|
            0 <= k < edges.len() ==> (#[trigger] edges[k]).0 < nodes_len && edges[k].1
                < nodes_len,
    ensures
        forall|i: int| 0 <= i < p.len() ==> p[i] < nodes_len,
{
    assert forall|i: int| 0 <= i < p.len() implies p[i] < nodes_len by {
        if i == 0 {
            assert(p[0] == from);
        } else {
            let j = i - 1;
            assert(0 <= j < p.len() - 1);
            assert(edges.contains((p[j], p[j + 1])));
            let k = choose|k: int| 0 <= k < edges.len() && edges[k] == (p[j], p[j + 1]);
            assert(edges[k].1 < nodes_len);
            assert(p[j + 1] == p[i]);
        }
    }
}

/// Concatenation of three string slices.
fn cat3(a: &str, b: &str, c: &str) -> (r: String)
    ensures
        r@ == a@ + b@ + c@,
{
    let mut s = a.to_owned();
    s.append(b);
    s.append(c);
    s
}

/// The message for a signal left unassigned on some path.
pub open spec fn unassigned_signal_msg(name: Seq<char>) -> Seq<char> {
    "Signal `"@ + name
        + "` is not initialized on all execution paths and would be given a zero value where no assignment has been made to it. Consider assigning a value to it explicitly."@
}

/// The message for a local variable left unassigned on some path.
pub open spec fn unassigned_var_msg(name: Seq<char>) -> Seq<char> {
    "Var `"@ + name
        + "` is not initialized on all execution paths and would be given a zero value where no assignment has been made to it. Consider assigning a value to it explicitly."@
}

/// The message for a signal assigned more than once on some path.
pub open spec fn multiple_signal_msg(name: Seq<char>) -> Seq<char> {
    "Signal "@ + name + " was already assigned a value and multiple assignments are not allowed."@
}

/// The message for a local variable assigned more than once on some path.
pub open spec fn multiple_var_msg(name: Seq<char>) -> Seq<char> {
    "Var "@ + name + " was already assigned a value and multiple assignments are not allowed."@
}

/// A definite/multiple-assignment finding: which symbol, where, of which
/// declared kind, and which of the two errors.
pub struct PathAnalysisLint {
    pub loc: (usize, usize),
    pub xtype: VariableType,
    pub path_err: PathAnalysisErr,
    pub name: String,
    pub msg: String,
}

/// The declared kind `sym` has on `path` (the kind of its last declaration).
pub open spec fn path_xtype(nodes: Seq<NodeV>, path: Seq<usize>, sym: Seq<char>) -> VariableType {
    last_decl_of(nodes, path, sym)->Some_0.kind->Decl_xtype
}

/// The kinds the analysis flags: intermediate and output signals and local
/// variables. Input signals are supplied externally and exempt; components
/// are not assignment-checked.
pub open spec fn flagged_type(t: VariableType) -> bool {
    ||| t == VariableType::Signal(SignalType::Intermediate)
    ||| t == VariableType::Signal(SignalType::Output)
    ||| t == VariableType::Var
}

/// Whether `path` is an offending path for `sym`: it does not assign `sym`
/// exactly once since its declaration, and `sym`'s kind is one the analysis
/// flags.
pub open spec fn offending(nodes: Seq<NodeV>, path: Seq<usize>, sym: Seq<char>) -> bool {
    subs_since_decl(nodes, path, sym) != 1 && flagged_type(path_xtype(nodes, path, sym))
}

/// Checks that `signal` is assigned exactly once on every execution path from
/// the template's entry to the statement at `meta`. Returns `None` when every
/// path does; otherwise a lint for the first offending path found, whose
/// message and location depend on the symbol's kind and on which of the two
/// errors the path shows.
#[verifier::loop_isolation(false)]
#[verifier::rlimit(30)]
pub fn lint_all_paths_to_signal(
    program: &Program,
    template_name: &str,
    signal: &str,
    meta: &Meta,
) -> (r: Option<PathAnalysisLint>)
    requires
        spec_find_template(program@.templates, template_name@) is Some,
        ({
            let body = spec_find_template(program@.templates, template_name@)->Some_0.body;
            let nodes = cfg_nodes_of(body);
            let edges = cfg_edges_of(body);
            &&& nodes.len() >= 1
            &&& span_node_of(nodes, meta@) is Some
            &&& forall|p: Seq<usize>|
                #[trigger] is_simple_path(edges, p, 0, span_node_of(nodes, meta@)->Some_0 as usize)
                    ==> well_scoped(nodes, p) && declared_on(nodes, p, signal@)
        }),
    ensures
        ({
            let body = spec_find_template(program@.templates, template_name@)->Some_0.body;
            let nodes = cfg_nodes_of(body);
            let edges = cfg_edges_of(body);
            let target = span_node_of(nodes, meta@)->Some_0 as usize;
            &&& (r is None <==> forall|p: Seq<usize>|
                is_simple_path(edges, p, 0, target) ==> !offending(nodes, p, signal@))
            &&& (r matches Option::Some(l) ==> exists|p: Seq<usize>|
                {
                    &&& #[trigger] is_simple_path(edges, p, 0, target)
                    &&& offending(nodes, p, signal@)
                    &&& l.name@ == signal@
                    &&& l.xtype == path_xtype(nodes, p, signal@)
                    &&& l.path_err == (if subs_since_decl(nodes, p, signal@) == 0 {
                        PathAnalysisErr::Unassigned
                    } else {
                        PathAnalysisErr::MultipleAssignment
                    })
                    &&& ({
                        let decl = last_decl_of(nodes, p, signal@)->Some_0;
                        let decl_loc = (decl.meta.start as usize, decl.meta.end as usize);
                        if l.xtype == VariableType::Var {
                            &&& l.loc == decl_loc
                            &&& (l.path_err == PathAnalysisErr::Unassigned ==> l.msg@
                                == unassigned_var_msg(signal@))
                            &&& (l.path_err == PathAnalysisErr::MultipleAssignment ==> l.msg@
                                == multiple_var_msg(signal@))
                        } else {
                            &&& (l.path_err == PathAnalysisErr::Unassigned ==> l.loc == (
                                meta@.start as usize,
                                meta@.end as usize,
                            ) && l.msg@ == unassigned_signal_msg(signal@))
                            &&& (l.path_err == PathAnalysisErr::MultipleAssignment ==> l.loc
                                == decl_loc && l.msg@ == multiple_signal_msg(signal@))
                        }
                    })
                })
            // When only one of the two errors occurs on any path, the lint's
            // kind is pinned: some path never assigns the symbol and no path
            // assigns it more than once gives Unassigned, and the other way
            // around gives MultipleAssignment.
            &&& ((exists|p: Seq<usize>|
                #[trigger] is_simple_path(edges, p, 0, target) && offending(nodes, p, signal@)
                    && subs_since_decl(nodes, p, signal@) == 0) && (forall|p: Seq<usize>|
                #[trigger] is_simple_path(edges, p, 0, target) && offending(nodes, p, signal@)
                    ==> subs_since_decl(nodes, p, signal@) == 0) ==> (r matches Option::Some(
                l,
            ) && l.path_err == PathAnalysisErr::Unassigned))
            &&& ((exists|p: Seq<usize>|
                #[trigger] is_simple_path(edges, p, 0, target) && offending(nodes, p, signal@)
                    && subs_since_decl(nodes, p, signal@) >= 2) && (forall|p: Seq<usize>|
                #[trigger] is_simple_path(edges, p, 0, target) && offending(nodes, p, signal@)
                    ==> subs_since_decl(nodes, p, signal@) >= 2) ==> (r matches Option::Some(
                l,
            ) && l.path_err == PathAnalysisErr::MultipleAssignment))
        }),
{
    let graph = build_flowgraph(program, template_name);
    let ghost bodyv = spec_find_template(program@.templates, template_name@)->Some_0.body;
    let ghost nodes = graph.nodes_view();
    let ghost edges = graph.edges();
    proof {
        assert(nodes == cfg_nodes_of(bodyv));
        assert(edges == cfg_edges_of(bodyv));
    }
    let target = match find_span_node(&graph, meta) {
        Option::Some(k) => k,
        Option::None => vstd::pervasive::unreached(),
    };
    proof {
        assert(span_node_of(nodes, meta@) == Option::Some(target as int));
        assert(span_node_of(nodes, meta@)->Some_0 as usize == target);
    }
    let paths = simple_paths_between(&graph, 0, target);
    let mut k: usize = 0;
    while k < paths.len()
        invariant
            k <= paths@.len(),
            forall|j: int| 0 <= j < k ==> !offending(nodes, #[trigger] paths@[j]@, signal@),
        decreases paths@.len() - k,
    {
        let path = &paths[k];
        proof {
            assert(is_simple_path(edges, paths@[k as int]@, 0, target));
            lemma_path_in_bounds(nodes.len() as int, edges, path@, 0, target);
            assert(is_simple_path(
                cfg_edges_of(bodyv),
                path@,
                0,
                span_node_of(cfg_nodes_of(bodyv), meta@)->Some_0 as usize,
            ));
            assert(well_scoped(cfg_nodes_of(bodyv), path@) && declared_on(
                cfg_nodes_of(bodyv),
                path@,
                signal@,
            ));
            assert(well_scoped(nodes, path@) && declared_on(nodes, path@, signal@));
        }
        let st = match run_path_analysis(&graph, path, signal) {
            Option::Some(v) => v,
            Option::None => vstd::pervasive::unreached(),
        };
        if !matches!(st.status, AssignStatus::AssignedOnce) {
            match st.xtype {
                VariableType::Signal(SignalType::Input) => {},
                VariableType::Signal(SignalType::Intermediate)
                | VariableType::Signal(SignalType::Output) => {
                    let lint = match st.status {
                        AssignStatus::Unassigned => PathAnalysisLint {
                            loc: (meta.start, meta.end),
                            xtype: st.xtype,
                            path_err: PathAnalysisErr::Unassigned,
                            name: signal.to_owned(),
                            msg: cat3(
                                "Signal `",
                                signal,
                                "` is not initialized on all execution paths and would be given a zero value where no assignment has been made to it. Consider assigning a value to it explicitly.",
                            ),
                        },
                        _ => PathAnalysisLint {
                            loc: st.loc,
                            xtype: st.xtype,
                            path_err: PathAnalysisErr::MultipleAssignment,
                            name: signal.to_owned(),
                            msg: cat3(
                                "Signal ",
                                signal,
                                " was already assigned a value and multiple assignments are not allowed.",
                            ),
                        },
                    };
                    proof {
                        assert(offending(nodes, paths@[k as int]@, signal@));
                    }
                    return Option::Some(lint);
                },
                VariableType::Var => {
                    let lint = match st.status {
                        AssignStatus::Unassigned => PathAnalysisLint {
                            loc: st.loc,
                            xtype: st.xtype,
                            path_err: PathAnalysisErr::Unassigned,
                            name: signal.to_owned(),
                            msg: cat3(
                                "Var `",
                                signal,
                                "` is not initialized on all execution paths and would be given a zero value where no assignment has been made to it. Consider assigning a value to it explicitly.",
                            ),
                        },
                        _ => PathAnalysisLint {
                            loc: st.loc,
                            xtype: st.xtype,
                            path_err: PathAnalysisErr::MultipleAssignment,
                            name: signal.to_owned(),
                            msg: cat3(
                                "Var ",
                                signal,
                                " was already assigned a value and multiple assignments are not allowed.",
                            ),
                        },
                    };
                    proof {
                        assert(offending(nodes, paths@[k as int]@, signal@));
                    }
                    return Option::Some(lint);
                },
                VariableType::Component => {},
            }
        }
        k += 1;
    }
    proof {
        assert forall|p: Seq<usize>|
            is_simple_path(edges, p, 0, target) implies !offending(nodes, p, signal@) by {
            let kk = choose|kk: int| 0 <= kk < paths@.len() && #[trigger] paths@[kk]@ == p;
            assert(!offending(nodes, paths@[kk]@, signal@));
        }
    }
    Option::None
}

/// Counts the substitutions into `sym` among the vertices of `path`.
#[verifier::loop_isolation(false)]
fn count_assignments(g: &Cfg, path: &Vec<usize>, sym: &str) -> (n: usize)
    requires
        g.wf(),
        forall|i: int| 0 <= i < path@.len() ==> path@[i] < g.nodes_view().len(),
    ensures
        n as nat == sub_count(g.nodes_view(), path@, sym@),
{
    let ghost nodes = g.nodes_view();
    let mut n: usize = 0;
    let mut i: usize = 0;
    while i < path.len()
        invariant
            i <= path@.len(),
            n <= i,
            n as nat == sub_count(nodes, path@.subrange(0, i as int), sym@),
        decreases path@.len() - i,
    {
        proof {
            let post = path@.subrange(0, i as int + 1);
            assert(post.subrange(0, post.len() - 1) =~= path@.subrange(0, i as int));
            assert(post[post.len() - 1] == path@[i as int]);
        }
        let node = g.get_node(path[i]);
        match &node.kind {
            NodeKind::Subst { var, .. } => {
                if crate::text::str_eq(var.as_str(), sym) {
                    n += 1;
                }
            },
            _ => {},
        }
        i += 1;
    }
    proof {
        assert(path@.subrange(0, path@.len() as int) =~= path@);
    }
    n
}

/// Builds the template's CFG and checks that every execution path from the
/// entry up to and including the substitution at `reassignment` assigns the
/// substitution's own target exactly once. Statements are located by identity
/// token, not by span. For a vertex that is not a substitution the check
/// passes vacuously.
#[verifier::loop_isolation(false)]
#[verifier::rlimit(30)]
pub fn check_double_assignment(program: &Program, template_name: &str, reassignment: &Meta) -> (r:
    bool)
    requires
        spec_find_template(program@.templates, template_name@) is Some,
        ({
            let body = spec_find_template(program@.templates, template_name@)->Some_0.body;
            let nodes = cfg_nodes_of(body);
            &&& nodes.len() >= 1
            &&& id_node_of(nodes, reassignment@.elem_id) is Some
        }),
    ensures
        ({
            let body = spec_find_template(program@.templates, template_name@)->Some_0.body;
            let nodes = cfg_nodes_of(body);
            let edges = cfg_edges_of(body);
            let target = id_node_of(nodes, reassignment@.elem_id)->Some_0 as usize;
            &&& (nodes[target as int].kind matches NodeKindV::Subst { var, .. } ==> (!r
                <==> exists|p: Seq<usize>|
                    #[trigger] is_simple_path(edges, p, 0, target) && sub_count(nodes, p, var)
                        != 1))
            &&& (!(nodes[target as int].kind is Subst) ==> r == true)
        }),
{
    let graph = build_flowgraph(program, template_name);
    let ghost bodyv = spec_find_template(program@.templates, template_name@)->Some_0.body;
    let ghost nodes = graph.nodes_view();
    let ghost edges = graph.edges();
    proof {
        assert(nodes == cfg_nodes_of(bodyv));
        assert(edges == cfg_edges_of(bodyv));
    }
    let target = match find_id_node(&graph, reassignment) {
        Option::Some(k) => k,
        Option::None => vstd::pervasive::unreached(),
    };
    proof {
        assert(id_node_of(nodes, reassignment@.elem_id) == Option::Some(target as int));
        assert(id_node_of(nodes, reassignment@.elem_id)->Some_0 as usize == target);
    }
    let paths = simple_paths_between(&graph, 0, target);
    let node = graph.get_node(target);
    if let NodeKind::Subst { var, .. } = &node.kind {
        let mut k: usize = 0;
        while k < paths.len()
            invariant
                k <= paths@.len(),
                forall|j: int|
                    0 <= j < k ==> sub_count(nodes, #[trigger] paths@[j]@, var@) == 1,
            decreases paths@.len() - k,
        {
            let path = &paths[k];
            proof {
                assert(is_simple_path(edges, paths@[k as int]@, 0, target));
                lemma_path_in_bounds(nodes.len() as int, edges, path@, 0, target);
            }
            let c = count_assignments(&graph, path, var.as_str());
            if c != 1 {
                return false;
            }
            k += 1;
        }
        proof {
            assert forall|p: Seq<usize>|
                #[trigger] is_simple_path(edges, p, 0, target) implies sub_count(
                nodes,
                p,
                var@,
            ) == 1 by {
                let kk = choose|kk: int|
                    0 <= kk < paths@.len() && #[trigger] paths@[kk]@ == p;
                assert(sub_count(nodes, paths@[kk]@, var@) == 1);
            }
        }
    }
    true
}

/// A verified copy of one vertex's data.
fn clone_node(n: &Node) -> (r: Node)
    ensures
        r@ == n@,
{
    Node {
        meta: n.meta.clone(),
        kind: match &n.kind {
            NodeKind::Decl { name, xtype } => NodeKind::Decl {
                name: name.clone(),
                xtype: *xtype,
            },
            NodeKind::Subst { var, op, rhe } => NodeKind::Subst {
                var: var.clone(),
                op: *op,
                rhe: clone_expr(rhe),
            },
            NodeKind::Branch => NodeKind::Branch,
            NodeKind::LoopHead => NodeKind::LoopHead,
            NodeKind::LoopExit => NodeKind::LoopExit,
            NodeKind::Other => NodeKind::Other,
        },
    }
}

/// The substitutions into `sym` along `path`, in path order.
pub open spec fn steps_to(nodes: Seq<NodeV>, path: Seq<usize>, sym: Seq<char>) -> Seq<NodeV>
    decreases path.len(),
{
    if path.len() == 0 {
        Seq::empty()
    } else {
        let pre = steps_to(nodes, path.subrange(0, path.len() - 1), sym);
        if is_sub_to(nodes[path[path.len() - 1] as int], sym) {
            pre.push(nodes[path[path.len() - 1] as int])
        } else {
            pre
        }
    }
}

/// The vertices of `path` that substitute into `x`, in path order. On a
/// single-vertex graph the convention is to hand back that one vertex,
/// whatever it is.
#[verifier::loop_isolation(false)]
pub fn assignments_to_x(g: &Cfg, path: &Vec<usize>, x: &str) -> (r: Vec<Node>)
    requires
        g.wf(),
        forall|i: int| 0 <= i < path@.len() ==> path@[i] < g.nodes_view().len(),
    ensures
        ({
            let rv = r@.map_values(|n: Node| n@);
            if g.nodes_view().len() == 1 {
                rv == seq![g.nodes_view()[0]]
            } else {
                rv == steps_to(g.nodes_view(), path@, x@)
            }
        }),
{
    let ghost nodes = g.nodes_view();
    if g.node_count() == 1 {
        let mut r: Vec<Node> = Vec::new();
        r.push(clone_node(g.get_node(0)));
        proof {
            assert(r@.map_values(|n: Node| n@) =~= seq![nodes[0]]);
        }
        return r;
    }
    let mut r: Vec<Node> = Vec::new();
    let mut i: usize = 0;
    while i < path.len()
        invariant
            i <= path@.len(),
            r@.map_values(|n: Node| n@) == steps_to(nodes, path@.subrange(0, i as int), x@),
        decreases path@.len() - i,
    {
        proof {
            let post = path@.subrange(0, i as int + 1);
            assert(post.subrange(0, post.len() - 1) =~= path@.subrange(0, i as int));
            assert(post[post.len() - 1] == path@[i as int]);
        }
        let node = g.get_node(path[i]);
        match &node.kind {
            NodeKind::Subst { var, .. } => {
                if crate::text::str_eq(var.as_str(), x) {
                    let ghost old_r = r@;
                    r.push(clone_node(node));
                    proof {
                        assert(r@.map_values(|n: Node| n@) =~= old_r.map_values(
                            |n: Node| n@,
                        ).push(nodes[path@[i as int] as int]));
                    }
                }
            },
            _ => {},
        }
        i += 1;
    }
    proof {
        assert(path@.subrange(0, path@.len() as int) =~= path@);
    }
    r
}

/// Every simple path between two vertices of the graph.
pub fn simple_paths_between(g: &Cfg, from: usize, to: usize) -> (r: Vec<Vec<usize>>)
    requires
        g.wf(),
        from < g.nodes_view().len(),
        to < g.nodes_view().len(),
    ensures
        forall|k: int| 0 <= k < r@.len() ==> is_simple_path(g.edges(), #[trigger] r@[k]@, from, to),
        forall|p: Seq<usize>|
            is_simple_path(g.edges(), p, from, to) ==> exists|k: int|
                0 <= k < r@.len() && #[trigger] r@[k]@ == p,
{
    graph_simple_paths(&g.graph, from, to)
}

/// The view of one control-flow graph: its vertex data and edges.
pub ghost struct CfgV {
    pub nodes: Seq<NodeV>,
    pub edges: Seq<(usize, usize)>,
}

impl View for Cfg {
    type V = CfgV;

    open spec fn view(&self) -> CfgV {
        CfgV { nodes: self.nodes_view(), edges: self.edges() }
    }
}

/// The first value of `s` keyed `k`.
pub open spec fn find_assoc<T>(s: Seq<(Seq<char>, T)>, k: Seq<char>) -> Option<T>
    decreases s.len(),
{
    if s.len() == 0 {
        Option::None
    } else if s[0].0 == k {
        Option::Some(s[0].1)
    } else {
        find_assoc(s.subrange(1, s.len() as int), k)
    }
}

/// The index of the first entry of `s` keyed `k`, or the length of `s`.
pub open spec fn find_assoc_index<T>(s: Seq<(Seq<char>, T)>, k: Seq<char>) -> int
    decreases s.len(),
{
    if s.len() == 0 {
        0
    } else if s[0].0 == k {
        0
    } else {
        1 + find_assoc_index(s.subrange(1, s.len() as int), k)
    }
}

/// Whether two constrained locations of one symbol conflict in a graph: a
/// simple path runs between their vertices in either direction, or they
/// resolve to the same vertex (the same loop-body statement revisited across
/// iterations).
pub open spec fn conflicting(g: CfgV, a: int, b: int) -> bool {
    ||| a == b
    ||| exists|p: Seq<usize>| #[trigger] is_simple_path(g.edges, p, a as usize, b as usize)
    ||| exists|p: Seq<usize>| #[trigger] is_simple_path(g.edges, p, b as usize, a as usize)
}

/// Decides whether the already-recorded location `prev_meta` conflicts with
/// the vertex `node`: a simple path runs between the two vertices in either
/// direction, or they are the same vertex.
#[verifier::loop_isolation(false)]
fn conflicts_with(graph: &Cfg, prev_meta: &Meta, node: usize) -> (r: bool)
    requires
        graph.wf(),
        node < graph.nodes_view().len(),
        id_node_of(graph@.nodes, prev_meta@.elem_id) is Some,
    ensures
        r == conflicting(
            graph@,
            id_node_of(graph@.nodes, prev_meta@.elem_id)->Some_0,
            node as int,
        ),
{
    let prev_node = match find_id_node(graph, prev_meta) {
        Option::Some(k) => k,
        Option::None => vstd::pervasive::unreached(),
    };
    let ghost g0 = graph@;
    let ghost pn = id_node_of(g0.nodes, prev_meta@.elem_id)->Some_0;
    proof {
        assert(pn == prev_node as int);
        assert(pn as usize == prev_node);
        assert((node as int) as usize == node);
    }
    let forward = simple_paths_between(graph, prev_node, node);
    let backward = simple_paths_between(graph, node, prev_node);
    let r = forward.len() > 0 || backward.len() > 0 || prev_node == node;
    proof {
        if forward.len() > 0 {
            assert(is_simple_path(g0.edges, forward@[0]@, prev_node, node));
            assert(is_simple_path(g0.edges, forward@[0]@, pn as usize, (node as int) as usize));
        }
        if backward.len() > 0 {
            assert(is_simple_path(g0.edges, backward@[0]@, node, prev_node));
            assert(is_simple_path(g0.edges, backward@[0]@, (node as int) as usize, pn as usize));
        }
        if !r {
            assert forall|p: Seq<usize>| !is_simple_path(g0.edges, p, prev_node, node) by {
                if is_simple_path(g0.edges, p, prev_node, node) {
                    let kk = choose|kk: int|
                        0 <= kk < forward@.len() && #[trigger] forward@[kk]@ == p;
                    assert(false);
                }
            }
            assert forall|p: Seq<usize>| !is_simple_path(g0.edges, p, node, prev_node) by {
                if is_simple_path(g0.edges, p, node, prev_node) {
                    let kk = choose|kk: int|
                        0 <= kk < backward@.len() && #[trigger] backward@[kk]@ == p;
                    assert(false);
                }
            }
            let pnu = pn as usize;
            let nodeu = (node as int) as usize;
            assert forall|p: Seq<usize>| !is_simple_path(g0.edges, p, pnu, nodeu) by {
                assert(!is_simple_path(g0.edges, p, prev_node, node));
            }
            assert forall|p: Seq<usize>| !is_simple_path(g0.edges, p, nodeu, pnu) by {
                assert(!is_simple_path(g0.edges, p, node, prev_node));
            }
            assert(!conflicting(g0, pn, node as int));
        }
    }
    r
}

/// The locations recorded so far for one symbol, the empty sequence when the
/// session has none.
pub open spec fn prev_of(rec: Seq<(Seq<char>, Seq<MetaV>)>, sym: Seq<char>) -> Seq<MetaV> {
    match find_assoc(rec, sym) {
        Option::Some(ms) => ms,
        Option::None => Seq::empty(),
    }
}

/// Whether some recorded location of the symbol conflicts with the vertex
/// `node` in the template's graph.
pub open spec fn tracker_conflict(g: CfgV, prev: Seq<MetaV>, node: int) -> bool {
    exists|j: int|
        0 <= j < prev.len() && conflicting(
            g,
            id_node_of(g.nodes, (#[trigger] prev[j]).elem_id)->Some_0,
            node,
        )
}

/// The record after adding one location of the symbol: appended to the
/// symbol's entry, or a fresh entry at the back.
pub open spec fn tracker_record(
    rec: Seq<(Seq<char>, Seq<MetaV>)>,
    sym: Seq<char>,
    m: MetaV,
) -> Seq<(Seq<char>, Seq<MetaV>)> {
    if find_assoc_index(rec, sym) < rec.len() {
        rec.update(find_assoc_index(rec, sym), (sym, prev_of(rec, sym).push(m)))
    } else {
        rec.push((sym, seq![m]))
    }
}

/// Scans the recorded locations of one symbol, front to back, for the first
/// that conflicts with the vertex `node`.
#[verifier::loop_isolation(false)]
fn find_conflicting(graph: &Cfg, metas: &Vec<Meta>, node: usize) -> (r: Option<usize>)
    requires
        graph.wf(),
        node < graph.nodes_view().len(),
        forall|j: int|
            0 <= j < metas@.len() ==> id_node_of(
                graph@.nodes,
                (#[trigger] metas@[j])@.elem_id,
            ) is Some,
    ensures
        ({
            let mv = metas@.map_values(|m: Meta| m@);
            match r {
                Option::Some(j) => j < mv.len() && conflicting(
                    graph@,
                    id_node_of(graph@.nodes, mv[j as int].elem_id)->Some_0,
                    node as int,
                ),
                Option::None => forall|jj: int|
                    0 <= jj < mv.len() ==> !conflicting(
                        graph@,
                        id_node_of(graph@.nodes, (#[trigger] mv[jj]).elem_id)->Some_0,
                        node as int,
                    ),
            }
        }),
{
    let ghost mv = metas@.map_values(|m: Meta| m@);
    let mut j: usize = 0;
    while j < metas.len()
        invariant
            j <= mv.len(),
            forall|jj: int|
                0 <= jj < j ==> !conflicting(
                    graph@,
                    id_node_of(graph@.nodes, (#[trigger] mv[jj]).elem_id)->Some_0,
                    node as int,
                ),
        decreases mv.len() - j,
    {
        proof {
            assert(mv[j as int] == metas@[j as int]@);
        }
        if conflicts_with(graph, &metas[j], node) {
            return Option::Some(j);
        }
        j += 1;
    }
    Option::None
}

/// The session-scoped cross-template constraint tracker: one CFG per
/// template, built up front, and for every symbol the locations where it has
/// been constrained so far. Calls must be sequential; the record grows for
/// the whole session.
pub struct PathAnalyser {
    call_flow_graphs: Vec<(String, Cfg)>,
    constraint_execution_assignments: Vec<(String, Vec<Meta>)>,
    pub checked_for_loops: Vec<usize>,
}

impl PathAnalyser {
    /// Finds the first held graph keyed by the template's name.
    #[verifier::loop_isolation(false)]
    fn find_graph_index(&self, template_name: &str) -> (r: Option<usize>)
        ensures
            match r {
                Option::Some(k) => k < self.graphs().len() && find_assoc(
                    self.graphs(),
                    template_name@,
                ) == Option::Some(self.graphs()[k as int].1),
                Option::None => find_assoc(self.graphs(), template_name@) is None,
            },
    {
        let ghost gs = self.graphs();
        let mut i: usize = 0;
        proof {
            assert(gs.subrange(0, gs.len() as int) =~= gs);
        }
        while i < self.call_flow_graphs.len()
            invariant
                i <= gs.len(),
                find_assoc(gs, template_name@) == find_assoc(
                    gs.subrange(i as int, gs.len() as int),
                    template_name@,
                ),
            decreases gs.len() - i,
        {
            proof {
                let tail = gs.subrange(i as int, gs.len() as int);
                assert(tail[0] == gs[i as int]);
                assert(tail.subrange(1, tail.len() as int) =~= gs.subrange(
                    i as int + 1,
                    gs.len() as int,
                ));
            }
            if crate::text::str_eq(self.call_flow_graphs[i].0.as_str(), template_name) {
                return Option::Some(i);
            }
            i += 1;
        }
        proof {
            assert(gs.subrange(gs.len() as int, gs.len() as int) =~= Seq::<
                (Seq<char>, CfgV),
            >::empty());
        }
        Option::None
    }

    /// Finds the record of `symbol`, if the session has one.
    #[verifier::loop_isolation(false)]
    fn find_symbol_index(&self, symbol: &str) -> (r: Option<usize>)
        ensures
            match r {
                Option::Some(k) => {
                    &&& k < self.recorded().len()
                    &&& find_assoc(self.recorded(), symbol@) == Option::Some(
                        self.recorded()[k as int].1,
                    )
                    &&& self.recorded()[k as int].0 == symbol@
                    &&& find_assoc_index(self.recorded(), symbol@) == k as int
                },
                Option::None => find_assoc(self.recorded(), symbol@) is None
                    && find_assoc_index(self.recorded(), symbol@) == self.recorded().len(),
            },
    {
        let ghost rs = self.recorded();
        let mut i: usize = 0;
        proof {
            assert(rs.subrange(0, rs.len() as int) =~= rs);
        }
        while i < self.constraint_execution_assignments.len()
            invariant
                i <= rs.len(),
                find_assoc(rs, symbol@) == find_assoc(
                    rs.subrange(i as int, rs.len() as int),
                    symbol@,
                ),
                find_assoc_index(rs, symbol@) == i + find_assoc_index(
                    rs.subrange(i as int, rs.len() as int),
                    symbol@,
                ),
            decreases rs.len() - i,
        {
            proof {
                let tail = rs.subrange(i as int, rs.len() as int);
                assert(tail[0] == rs[i as int]);
                assert(tail.subrange(1, tail.len() as int) =~= rs.subrange(
                    i as int + 1,
                    rs.len() as int,
                ));
            }
            if crate::text::str_eq(
                self.constraint_execution_assignments[i].0.as_str(),
                symbol,
            ) {
                return Option::Some(i);
            }
            i += 1;
        }
        proof {
            assert(rs.subrange(rs.len() as int, rs.len() as int) =~= Seq::<
                (Seq<char>, Seq<MetaV>),
            >::empty());
        }
        Option::None
    }

    /// The per-template graphs, in template order.
    pub closed spec fn graphs(&self) -> Seq<(Seq<char>, CfgV)> {
        self.call_flow_graphs@.map_values(|p: (String, Cfg)| (p.0@, p.1@))
    }

    /// The recorded constraint locations, per symbol.
    pub closed spec fn recorded(&self) -> Seq<(Seq<char>, Seq<MetaV>)> {
        self.constraint_execution_assignments@.map_values(
            |p: (String, Vec<Meta>)| (p.0@, p.1@.map_values(|m: Meta| m@)),
        )
    }

    /// The identity tokens of the loops already checked.
    pub closed spec fn checked(&self) -> Seq<usize> {
        self.checked_for_loops@
    }

    /// Every held graph is well formed.
    pub closed spec fn wf(&self) -> bool {
        forall|i: int|
            0 <= i < self.call_flow_graphs@.len() ==> (#[trigger] self.call_flow_graphs@[i]).1.wf()
    }

    /// Builds the CFG of every template of the program up front.
    #[verifier::loop_isolation(false)]
    pub fn new(program: &Program) -> (r: PathAnalyser)
        ensures
            r.wf(),
            r.graphs().len() == program@.templates.len(),
            forall|i: int|
                0 <= i < program@.templates.len() ==> {
                    let t = program@.templates[i];
                    &&& (#[trigger] r.graphs()[i]).0 == t.name
                    &&& r.graphs()[i].1.nodes == cfg_nodes_of(t.body)
                    &&& r.graphs()[i].1.edges == cfg_edges_of(t.body)
                },
            r.recorded() == Seq::<(Seq<char>, Seq<MetaV>)>::empty(),
            r.checked() == Seq::<usize>::empty(),
    {
        let mut call_flow_graphs: Vec<(String, Cfg)> = Vec::new();
        let mut i: usize = 0;
        while i < program.templates.len()
            invariant
                i <= program.templates@.len(),
                call_flow_graphs@.len() == i,
                forall|j: int|
                    0 <= j < i ==> {
                        let t = program@.templates[j];
                        let g = #[trigger] call_flow_graphs@[j];
                        &&& g.0@ == t.name
                        &&& g.1.wf()
                        &&& g.1.nodes_view() == cfg_nodes_of(t.body)
                        &&& g.1.edges() == cfg_edges_of(t.body)
                    },
            decreases program.templates@.len() - i,
        {
            let t = &program.templates[i];
            let g = build_statement_flowgraph(&t.body);
            call_flow_graphs.push((t.name.clone(), g));
            i += 1;
        }
        let r = PathAnalyser {
            call_flow_graphs,
            constraint_execution_assignments: Vec::new(),
            checked_for_loops: Vec::new(),
        };
        proof {
            assert(r.recorded() =~~= Seq::<(Seq<char>, Seq<MetaV>)>::empty());
        }
        r
    }

    /// Records that `symbol` is constrained at `meta` inside the named
    /// template. If any previously recorded location of the same symbol
    /// conflicts with this one (a path runs between them in either direction,
    /// or they are the same vertex), a multiple-assignment lint comes back
    /// and nothing is recorded; otherwise the location is added to the
    /// symbol's record.
    #[verifier::loop_isolation(false)]
#[verifier::rlimit(100)]
    #[verifier::spinoff_prover]
    pub fn constraint_signal_assignment(
        &mut self,
        template_name: &str,
        meta: &Meta,
        symbol: &str,
    ) -> (r: Result<(), PathAnalysisLint>)
        requires
            old(self).wf(),
            find_assoc(old(self).graphs(), template_name@) is Some,
            id_node_of(
                find_assoc(old(self).graphs(), template_name@)->Some_0.nodes,
                meta@.elem_id,
            ) is Some,
            forall|j: int|
                0 <= j < prev_of(old(self).recorded(), symbol@).len() ==> id_node_of(
                    find_assoc(old(self).graphs(), template_name@)->Some_0.nodes,
                    (#[trigger] prev_of(old(self).recorded(), symbol@)[j]).elem_id,
                ) is Some,
        ensures
            final(self).wf(),
            final(self).graphs() == old(self).graphs(),
            final(self).checked() == old(self).checked(),
            r is Err <==> tracker_conflict(
                find_assoc(old(self).graphs(), template_name@)->Some_0,
                prev_of(old(self).recorded(), symbol@),
                id_node_of(
                    find_assoc(old(self).graphs(), template_name@)->Some_0.nodes,
                    meta@.elem_id,
                )->Some_0,
            ),
            r matches Result::Err(l) ==> {
                &&& l.name@ == symbol@
                &&& l.msg@ == "Signal "@ + symbol@ + " is assigned to multiple times"@
                &&& l.path_err == PathAnalysisErr::MultipleAssignment
                &&& l.loc == (meta@.start as usize, meta@.end as usize)
                &&& final(self).recorded() == old(self).recorded()
            },
            r is Ok ==> final(self).recorded() == tracker_record(
                old(self).recorded(),
                symbol@,
                meta@,
            ),
    {
        let ghost g0 = find_assoc(old(self).graphs(), template_name@)->Some_0;
        let gi = match self.find_graph_index(template_name) {
            Option::Some(k) => k,
            Option::None => vstd::pervasive::unreached(),
        };
        let graph = &self.call_flow_graphs[gi].1;
        proof {
            assert(graph@ == g0);
        }
        let node = match find_id_node(graph, meta) {
            Option::Some(k) => k,
            Option::None => vstd::pervasive::unreached(),
        };
        proof {
            assert(id_node_of(g0.nodes, meta@.elem_id)->Some_0 == node as int);
            assert((node as int) as usize == node);
        }
        let ghost rec0 = self.recorded();
        let symbol_index = self.find_symbol_index(symbol);
        if let Option::Some(si) = symbol_index {
            let metas = &self.constraint_execution_assignments[si].1;
            let ghost prev = rec0[si as int].1;
            proof {
                assert(prev == metas@.map_values(|m: Meta| m@));
            }
            proof {
                assert(find_assoc(old(self).recorded(), symbol@) == Option::Some(prev));
                assert(prev_of(old(self).recorded(), symbol@) == prev);
                assert forall|j: int| 0 <= j < metas@.len() implies id_node_of(
                    g0.nodes,
                    (#[trigger] metas@[j])@.elem_id,
                ) is Some by {
                    assert(prev[j] == metas@[j]@);
                    assert(id_node_of(
                        find_assoc(old(self).graphs(), template_name@)->Some_0.nodes,
                        prev_of(old(self).recorded(), symbol@)[j].elem_id,
                    ) is Some);
                }
            }
            let conflict_at = find_conflicting(graph, metas, node);
            if let Option::Some(cj) = conflict_at {
                proof {
                    assert(prev =~= metas@.map_values(|m: Meta| m@));
                    assert(conflicting(
                        g0,
                        id_node_of(g0.nodes, prev[cj as int].elem_id)->Some_0,
                        node as int,
                    ));
                    assert(prev_of(old(self).recorded(), symbol@) == prev);
                    assert(tracker_conflict(g0, prev, node as int));
                }
                let lint = PathAnalysisLint {
                    loc: (meta.start, meta.end),
                    xtype: VariableType::Signal(SignalType::Output),
                    path_err: PathAnalysisErr::MultipleAssignment,
                    name: symbol.to_owned(),
                    msg: cat3("Signal ", symbol, " is assigned to multiple times"),
                };
                return Result::Err(lint);
            }
            proof {
                assert forall|jj: int| 0 <= jj < prev.len() implies !conflicting(
                    g0,
                    id_node_of(g0.nodes, (#[trigger] prev[jj]).elem_id)->Some_0,
                    node as int,
                ) by {
                    assert(prev[jj] == metas@.map_values(|m: Meta| m@)[jj]);
                }
                assert(prev_of(old(self).recorded(), symbol@) == prev);
                assert(!tracker_conflict(g0, prev, node as int));
            }
            let ghost rec_pre = self.recorded();
            let mut entry = self.constraint_execution_assignments.remove(si);
            entry.1.push(meta.clone());
            self.constraint_execution_assignments.insert(si, entry);
            proof {
                assert(self.recorded() =~~= rec_pre.update(
                    si as int,
                    (symbol@, prev.push(meta@)),
                ));
                assert(self.recorded() == tracker_record(rec0, symbol@, meta@));
            }
            Result::Ok(())
        } else {
            let ghost rec_pre = self.recorded();
            let mut ms: Vec<Meta> = Vec::new();
            ms.push(meta.clone());
            self.constraint_execution_assignments.push((symbol.to_owned(), ms));
            proof {
                assert(self.recorded() =~~= rec_pre.push((symbol@, seq![meta@])));
                assert(self.recorded() == tracker_record(rec0, symbol@, meta@));
            }
            Result::Ok(())
        }
    }
}

} // verus!
