//! The lint records the analyses produce, the visitor-based lint framework,
//! and its two concrete rules: the anonymous-component hint and the
//! constant-signal hint.
//!
//! The orchestrator walks every template body in pre-order and hands each
//! declaration, substitution and block to every registered linter. At the
//! mathematical level a traversal is the event sequence `events_of` of the
//! body, and each linter's state after the walk is a fold of its step
//! function over those events; `lint` then renders each linter's collected
//! records, in registration order.

use vstd::prelude::*;

use crate::ast::Access;
use crate::ast::AccessV;
use crate::ast::AssignOp;
use crate::ast::Expression;
use crate::ast::ExprV;
use crate::ast::Meta;
use crate::ast::MetaV;
use crate::ast::Program;
use crate::ast::ProgramV;
use crate::ast::SignalType;
use crate::ast::Statement;
use crate::ast::StmtV;
use crate::ast::TemplateV;
use crate::ast::VariableType;
use crate::ast::accesses_view;
use crate::ast::clone_expr;
use crate::ast::clone_stmt;
use crate::ast::lemma_accesses_view;
use crate::ast::lemma_stmts_view;
use crate::ast::spec_expr_meta;
use crate::ast::spec_find_template;
use crate::ast::stmts_view;
use crate::cfg::find_assoc;
use crate::cfg::find_assoc_index;
use crate::text::join_comma;
use crate::text::spec_join_comma;
use crate::text::str_eq;
use vstd::string::StrSliceExecFns;

verus! {

/// How severe a lint is.
#[derive(Clone, Copy, PartialEq, Eq, Structural, Debug)]
pub enum LintLevel {
    Error,
    Warning,
    Note,
}

/// Which rule produced a lint.
#[derive(Clone, Copy, PartialEq, Eq, Structural, Debug)]
pub enum ReportCode {
    AnonymousCompLint,
    ConstantSignalLint,
    LoopNoProgress,
    LoopMayOverflow,
}

/// One lint: its rule, short and long message, source span and severity.
pub struct Lint {
    pub error_code: ReportCode,
    pub error_msg: String,
    pub loc: (usize, usize),
    pub msg: String,
    pub level: LintLevel,
}

pub ghost struct LintV {
    pub error_code: ReportCode,
    pub error_msg: Seq<char>,
    pub loc: (int, int),
    pub msg: Seq<char>,
    pub level: LintLevel,
}

impl View for Lint {
    type V = LintV;

    open spec fn view(&self) -> LintV {
        LintV {
            error_code: self.error_code,
            error_msg: self.error_msg@,
            loc: (self.loc.0 as int, self.loc.1 as int),
            msg: self.msg@,
            level: self.level,
        }
    }
}

/// One traversal event: what the orchestrator hands the linters for a block,
/// a declaration or a substitution. Every other statement kind is a traversal
/// leaf outside the framework's scope.
pub ghost enum EventV {
    Block { meta: MetaV, stmts: Seq<StmtV> },
    Decl {
        meta: MetaV,
        xtype: VariableType,
        name: Seq<char>,
        dimensions: Seq<ExprV>,
        is_constant: bool,
    },
    Subst { meta: MetaV, var: Seq<char>, access: Seq<AccessV>, op: AssignOp, rhe: ExprV },
}

/// The events a pre-order walk of `s` dispatches: blocks announce themselves
/// before their children, conditionals yield both branches, loops their body,
/// and declarations and substitutions themselves.
pub open spec fn events_of(s: StmtV) -> Seq<EventV>
    decreases s,
{
    match s {
        StmtV::IfThenElse { if_case, else_case, .. } => events_of(*if_case) + (match else_case {
            Option::Some(e) => events_of(*e),
            Option::None => Seq::empty(),
        }),
        StmtV::While { stmt, .. } => events_of(*stmt),
        StmtV::Block { meta, stmts } => seq![EventV::Block { meta, stmts }] + events_seq(stmts),
        StmtV::InitializationBlock { initializations, .. } => events_seq(initializations),
        StmtV::Declaration { meta, xtype, name, dimensions, is_constant } => seq![
            EventV::Decl { meta, xtype, name, dimensions, is_constant },
        ],
        StmtV::Substitution { meta, var, access, op, rhe } => seq![
            EventV::Subst { meta, var, access, op, rhe },
        ],
        _ => Seq::empty(),
    }
}

pub open spec fn events_seq(ss: Seq<StmtV>) -> Seq<EventV>
    decreases ss,
{
    if ss.len() == 0 {
        Seq::empty()
    } else {
        events_of(ss[0]) + events_seq(ss.subrange(1, ss.len() as int))
    }
}

/// The events of a whole program: each template body in order.
pub open spec fn templates_events(ts: Seq<TemplateV>) -> Seq<EventV>
    decreases ts.len(),
{
    if ts.len() == 0 {
        Seq::empty()
    } else {
        events_of(ts[0].body) + templates_events(ts.subrange(1, ts.len() as int))
    }
}

/// Replaces the first entry of `s` keyed `k` with `(k, v)`, or appends one.
pub open spec fn upsert<T>(s: Seq<(Seq<char>, T)>, k: Seq<char>, v: T) -> Seq<(Seq<char>, T)>
    decreases s.len(),
{
    if s.len() == 0 {
        seq![(k, v)]
    } else if s[0].0 == k {
        seq![(k, v)] + s.subrange(1, s.len() as int)
    } else {
        seq![s[0]] + upsert(s.subrange(1, s.len() as int), k, v)
    }
}

/// View of a vector of string pairs.
pub open spec fn pairs_view(s: Seq<(String, String)>) -> Seq<(Seq<char>, Seq<char>)> {
    s.map_values(|p: (String, String)| (p.0@, p.1@))
}

/// Replaces the first entry keyed `k` or appends one, as `upsert` describes.
#[verifier::loop_isolation(false)]
fn upsert_str(v: &mut Vec<(String, String)>, k: &str, val: String)
    ensures
        pairs_view(final(v)@) == upsert(pairs_view(old(v)@), k@, val@),
{
    let ghost full = pairs_view(v@);
    let mut i: usize = 0;
    proof {
        assert(full.subrange(0, full.len() as int) =~= full);
    }
    while i < v.len()
        invariant
            v@ == old(v)@,
            i <= v@.len(),
            upsert(full, k@, val@) == full.subrange(0, i as int) + upsert(
                full.subrange(i as int, full.len() as int),
                k@,
                val@,
            ),
        decreases v@.len() - i,
    {
        proof {
            let tail = full.subrange(i as int, full.len() as int);
            assert(tail[0] == full[i as int]);
            assert(tail.subrange(1, tail.len() as int) =~= full.subrange(
                i as int + 1,
                full.len() as int,
            ));
            if full[i as int].0 != k@ {
                assert(full.subrange(0, i as int) + (seq![full[i as int]] + upsert(
                    full.subrange(i as int + 1, full.len() as int),
                    k@,
                    val@,
                )) =~= full.subrange(0, i as int + 1) + upsert(
                    full.subrange(i as int + 1, full.len() as int),
                    k@,
                    val@,
                ));
            }
        }
        if str_eq(v[i].0.as_str(), k) {
            v.remove(i);
            v.insert(i, (k.to_owned(), val));
            proof {
                assert(pairs_view(v@) =~= full.subrange(0, i as int) + (seq![(k@, val@)]
                    + full.subrange(i as int + 1, full.len() as int)));
            }
            return ;
        }
        i += 1;
    }
    proof {
        assert(full.subrange(full.len() as int, full.len() as int) =~= Seq::<
            (Seq<char>, Seq<char>),
        >::empty());
    }
    v.push((k.to_owned(), val));
    proof {
        assert(pairs_view(v@) =~= full + seq![(k@, val@)]);
        assert(full + seq![(k@, val@)] =~= full.subrange(0, full.len() as int) + upsert(
            Seq::<(Seq<char>, Seq<char>)>::empty(),
            k@,
            val@,
        ));
    }
}

/// Whether `v` holds a string equal to `s`.
#[verifier::loop_isolation(false)]
fn contains_str(v: &Vec<String>, s: &str) -> (r: bool)
    ensures
        r == v@.map_values(|x: String| x@).contains(s@),
{
    let ghost names = v@.map_values(|x: String| x@);
    let mut i: usize = 0;
    while i < v.len()
        invariant
            i <= v@.len(),
            forall|j: int| 0 <= j < i ==> names[j] != s@,
        decreases v@.len() - i,
    {
        if str_eq(v[i].as_str(), s) {
            proof {
                assert(names[i as int] == s@);
            }
            return true;
        }
        i += 1;
    }
    proof {
        if names.contains(s@) {
            let w = choose|w: int| 0 <= w < names.len() && names[w] == s@;
            assert(false);
        }
    }
    false
}

/// View of a vector of name/metadata pairs.
pub open spec fn metas_view(s: Seq<(String, Meta)>) -> Seq<(Seq<char>, MetaV)> {
    s.map_values(|p: (String, Meta)| (p.0@, p.1@))
}

/// Replaces the first entry keyed `k` or appends one, as `upsert` describes.
#[verifier::loop_isolation(false)]
fn upsert_meta(v: &mut Vec<(String, Meta)>, k: &str, val: Meta)
    ensures
        metas_view(final(v)@) == upsert(metas_view(old(v)@), k@, val@),
{
    let ghost full = metas_view(v@);
    let mut i: usize = 0;
    proof {
        assert(full.subrange(0, full.len() as int) =~= full);
    }
    while i < v.len()
        invariant
            v@ == old(v)@,
            i <= v@.len(),
            upsert(full, k@, val@) == full.subrange(0, i as int) + upsert(
                full.subrange(i as int, full.len() as int),
                k@,
                val@,
            ),
        decreases v@.len() - i,
    {
        proof {
            let tail = full.subrange(i as int, full.len() as int);
            assert(tail[0] == full[i as int]);
            assert(tail.subrange(1, tail.len() as int) =~= full.subrange(
                i as int + 1,
                full.len() as int,
            ));
            if full[i as int].0 != k@ {
                assert(full.subrange(0, i as int) + (seq![full[i as int]] + upsert(
                    full.subrange(i as int + 1, full.len() as int),
                    k@,
                    val@,
                )) =~= full.subrange(0, i as int + 1) + upsert(
                    full.subrange(i as int + 1, full.len() as int),
                    k@,
                    val@,
                ));
            }
        }
        if str_eq(v[i].0.as_str(), k) {
            v.remove(i);
            v.insert(i, (k.to_owned(), val));
            proof {
                assert(metas_view(v@) =~= full.subrange(0, i as int) + (seq![(k@, val@)]
                    + full.subrange(i as int + 1, full.len() as int)));
            }
            return ;
        }
        i += 1;
    }
    proof {
        assert(full.subrange(full.len() as int, full.len() as int) =~= Seq::<
            (Seq<char>, MetaV),
        >::empty());
    }
    v.push((k.to_owned(), val));
    proof {
        assert(metas_view(v@) =~= full + seq![(k@, val@)]);
        assert(full + seq![(k@, val@)] =~= full.subrange(0, full.len() as int) + upsert(
            Seq::<(Seq<char>, MetaV)>::empty(),
            k@,
            val@,
        ));
    }
}

/// Finds the first entry of `v` keyed `k`.
#[verifier::loop_isolation(false)]
fn find_meta_index(v: &Vec<(String, Meta)>, k: &str) -> (r: Option<usize>)
    ensures
        match r {
            Option::Some(i) => i < v@.len() && metas_view(v@)[i as int].0 == k@ && find_assoc(
                metas_view(v@),
                k@,
            ) == Option::Some(metas_view(v@)[i as int].1),
            Option::None => find_assoc(metas_view(v@), k@) is None,
        },
{
    let ghost full = metas_view(v@);
    let mut i: usize = 0;
    proof {
        assert(full.subrange(0, full.len() as int) =~= full);
    }
    while i < v.len()
        invariant
            i <= v@.len(),
            find_assoc(full, k@) == find_assoc(full.subrange(i as int, full.len() as int), k@),
        decreases v@.len() - i,
    {
        proof {
            let tail = full.subrange(i as int, full.len() as int);
            assert(tail[0] == full[i as int]);
            assert(tail.subrange(1, tail.len() as int) =~= full.subrange(
                i as int + 1,
                full.len() as int,
            ));
        }
        if str_eq(v[i].0.as_str(), k) {
            return Option::Some(i);
        }
        i += 1;
    }
    proof {
        assert(full.subrange(full.len() as int, full.len() as int) =~= Seq::<
            (Seq<char>, MetaV),
        >::empty());
    }
    Option::None
}

/// One remembered constant-signal declaration: where it stands and its name.
struct ConstantSignalRecord {
    loc: (usize, usize),
    name: String,
}

pub ghost struct CSRecordV {
    pub loc: (int, int),
    pub name: Seq<char>,
}

/// The constant-signal linter's state: the constant intermediate/output
/// signal declarations seen, every intermediate/output signal name seen, and
/// for each such signal the metadata of the last right-hand side assigned to
/// it.
pub ghost struct CSState {
    pub records: Seq<CSRecordV>,
    pub signals: Seq<Seq<char>>,
    pub rhe: Seq<(Seq<char>, MetaV)>,
}

/// How one traversal event changes the constant-signal linter's state.
pub open spec fn cs_step(st: CSState, e: EventV) -> CSState {
    match e {
        EventV::Decl { meta, xtype, name, is_constant, .. } => {
            if xtype == VariableType::Signal(SignalType::Intermediate) || xtype
                == VariableType::Signal(SignalType::Output) {
                CSState {
                    signals: st.signals.push(name),
                    records: if is_constant {
                        st.records.push(CSRecordV { loc: (meta.start, meta.end), name })
                    } else {
                        st.records
                    },
                    rhe: st.rhe,
                }
            } else {
                st
            }
        },
        EventV::Subst { var, rhe, .. } => {
            if st.signals.contains(var) {
                CSState {
                    records: st.records,
                    signals: st.signals,
                    rhe: upsert(st.rhe, var, spec_expr_meta(rhe)),
                }
            } else {
                st
            }
        },
        EventV::Block { .. } => st,
    }
}

/// The long message of a constant-signal lint: define the signal as a
/// variable instead, with the recorded right-hand side's literal source text.
pub open spec fn cs_msg(src: Seq<char>, name: Seq<char>, m: MetaV) -> Seq<char> {
    "You should define `"@ + name + "` as a variable instead: `var "@ + name + " = "@
        + src.subrange(m.start, m.end) + "`"@
}

/// What the constant-signal linter renders at collect time: one note per
/// recorded constant signal.
pub open spec fn cs_render(p: ProgramV, st: CSState) -> Seq<LintV> {
    st.records.map_values(
        |rec: CSRecordV| LintV {
            error_code: ReportCode::ConstantSignalLint,
            error_msg: "Constant signal: `"@ + rec.name + "`"@,
            loc: rec.loc,
            msg: cs_msg(p.source, rec.name, find_assoc(st.rhe, rec.name)->Some_0),
            level: LintLevel::Note,
        },
    )
}

/// Collecting needs every recorded constant signal to have a recorded
/// right-hand side whose span lies in the source text; a record without one
/// would mean the program assigned the signal nowhere, which constant folding
/// rules out.
pub open spec fn cs_collect_ok(p: ProgramV, st: CSState) -> bool {
    forall|i: int|
        0 <= i < st.records.len() ==> {
            let rec = #[trigger] st.records[i];
            &&& find_assoc(st.rhe, rec.name) is Some
            &&& 0 <= find_assoc(st.rhe, rec.name)->Some_0.start
            &&& find_assoc(st.rhe, rec.name)->Some_0.start <= find_assoc(
                st.rhe,
                rec.name,
            )->Some_0.end
            &&& find_assoc(st.rhe, rec.name)->Some_0.end <= p.source.len()
        }
}

/// Flags intermediate and output signals whose value the constant-folding
/// pass marked compile-time constant, suggesting a local variable instead.
pub struct ConstantSignalLinter {
    constant_signal_lints: Vec<ConstantSignalRecord>,
    signals: Vec<String>,
    signals_rhe: Vec<(String, Meta)>,
}

impl View for ConstantSignalLinter {
    type V = CSState;

    closed spec fn view(&self) -> CSState {
        CSState {
            records: self.constant_signal_lints@.map_values(
                |r: ConstantSignalRecord|
                    CSRecordV { loc: (r.loc.0 as int, r.loc.1 as int), name: r.name@ },
            ),
            signals: self.signals@.map_values(|s: String| s@),
            rhe: metas_view(self.signals_rhe@),
        }
    }
}

impl ConstantSignalLinter {
    pub fn new() -> (r: ConstantSignalLinter)
        ensures
            r@ == (CSState {
                records: Seq::<CSRecordV>::empty(),
                signals: Seq::<Seq<char>>::empty(),
                rhe: Seq::<(Seq<char>, MetaV)>::empty(),
            }),
    {
        let r = ConstantSignalLinter {
            constant_signal_lints: Vec::new(),
            signals: Vec::new(),
            signals_rhe: Vec::new(),
        };
        proof {
            assert(r@.records =~= Seq::<CSRecordV>::empty());
            assert(r@.signals =~= Seq::<Seq<char>>::empty());
            assert(r@.rhe =~= Seq::<(Seq<char>, MetaV)>::empty());
        }
        r
    }

    /// The constant-folding pass that marks declarations runs upstream, in
    /// the program-representation collaborator; by the time a tree reaches
    /// this linter every declaration already carries its flag, so there is
    /// nothing to set up.
    pub fn init(&mut self, program: &mut Program)
        ensures
            final(self)@ == old(self)@,
            *final(program) == *old(program),
    {
    }

    /// Remembers intermediate/output signal names, and the declaration when
    /// it is marked constant.
    pub fn visit_declaration(
        &mut self,
        _program: &Program,
        meta: &Meta,
        xtype: &VariableType,
        name: &String,
        _dimensions: &Vec<Expression>,
        is_constant: bool,
    )
        ensures
            final(self)@ == cs_step(
                old(self)@,
                EventV::Decl {
                    meta: meta@,
                    xtype: *xtype,
                    name: name@,
                    dimensions: crate::ast::exprs_view(_dimensions@),
                    is_constant,
                },
            ),
    {
        match xtype {
            VariableType::Signal(SignalType::Intermediate)
            | VariableType::Signal(SignalType::Output) => {
                let ghost st0 = self@;
                self.signals.push(name.clone());
                if is_constant {
                    self.constant_signal_lints.push(
                        ConstantSignalRecord { loc: (meta.start, meta.end), name: name.clone() },
                    );
                }
                proof {
                    assert(self@.signals =~= st0.signals.push(name@));
                    if is_constant {
                        assert(self@.records =~= st0.records.push(
                            CSRecordV { loc: (meta@.start, meta@.end), name: name@ },
                        ));
                    }
                }
            },
            _ => {},
        }
    }

    /// Records the right-hand side's metadata for any remembered signal.
    pub fn visit_substitution(
        &mut self,
        _program: &Program,
        _meta: &Meta,
        var: &str,
        _access: &Vec<Access>,
        _op: &AssignOp,
        rhe: &Expression,
    )
        ensures
            final(self)@ == cs_step(
                old(self)@,
                EventV::Subst {
                    meta: _meta@,
                    var: var@,
                    access: accesses_view(_access@),
                    op: *_op,
                    rhe: rhe@,
                },
            ),
    {
        if contains_str(&self.signals, var) {
            let m = rhe.get_meta().clone();
            upsert_meta(&mut self.signals_rhe, var, m);
        }
    }

    pub fn visit_block(&mut self, _program: &Program, _meta: &Meta, _stmts: &Vec<Statement>)
        ensures
            final(self)@ == old(self)@,
    {
    }

    /// Renders one note per recorded constant signal, as `cs_render`
    /// describes. A record whose signal has no recorded right-hand side is
    /// skipped; `cs_collect_ok` says when that cannot happen.
    #[verifier::loop_isolation(false)]
    pub fn lint(&mut self, program: &Program) -> (r: Vec<Lint>)
        ensures
            cs_collect_ok(program@, old(self)@) ==> r@.map_values(|l: Lint| l@) == cs_render(
                program@,
                old(self)@,
            ),
            final(self)@ == old(self)@,
    {
        let ghost st = self@;
        let ghost target = cs_render(program@, st);
        let mut out: Vec<Lint> = Vec::new();
        let mut i: usize = 0;
        while i < self.constant_signal_lints.len()
            invariant
                i <= st.records.len(),
                self@ == st,
                out@.len() <= i,
                cs_collect_ok(program@, st) ==> out@.len() == i && forall|j: int|
                    0 <= j < i ==> (#[trigger] out@[j])@ == target[j],
            decreases st.records.len() - i,
        {
            let rec = &self.constant_signal_lints[i];
            proof {
                assert(st.records[i as int] == CSRecordV {
                    loc: (rec.loc.0 as int, rec.loc.1 as int),
                    name: rec.name@,
                });
            }
            let name = rec.name.clone();
            match find_meta_index(&self.signals_rhe, name.as_str()) {
                Option::Some(ri) => {
                    let m = &self.signals_rhe[ri].1;
                    if m.start <= m.end && m.end <= program.source.as_str().unicode_len() {
                        let txt = program.source_slice(m.start, m.end);
                        let mut msg = "You should define `".to_owned();
                        msg.append(name.as_str());
                        msg.append("` as a variable instead: `var ");
                        msg.append(name.as_str());
                        msg.append(" = ");
                        msg.append(txt.as_str());
                        msg.append("`");
                        let mut emsg = "Constant signal: `".to_owned();
                        emsg.append(name.as_str());
                        emsg.append("`");
                        out.push(
                            Lint {
                                error_code: ReportCode::ConstantSignalLint,
                                error_msg: emsg,
                                loc: rec.loc,
                                msg,
                                level: LintLevel::Note,
                            },
                        );
                    }
                },
                Option::None => {},
            }
            i += 1;
        }
        proof {
            if cs_collect_ok(program@, st) {
                assert(out@.map_values(|l: Lint| l@) =~= target);
            }
        }
        out
    }
}

/// The lookup index and the lookup agree: the first entry keyed `k` is at
/// `find_assoc_index`, and the index is the length exactly when no entry has
/// the key.
pub proof fn lemma_find_assoc_index<T>(s: Seq<(Seq<char>, T)>, k: Seq<char>)
    ensures
        0 <= find_assoc_index(s, k) <= s.len(),
        find_assoc(s, k) is Some <==> find_assoc_index(s, k) < s.len(),
        find_assoc(s, k) is Some ==> s[find_assoc_index(s, k)].0 == k && find_assoc(s, k)
            == Option::Some(s[find_assoc_index(s, k)].1),
    decreases s.len(),
{
    if s.len() > 0 && s[0].0 != k {
        lemma_find_assoc_index(s.subrange(1, s.len() as int), k);
    }
}

/// The input and output bindings recorded for one component instance.
pub type CompV = (Seq<(Seq<char>, Seq<char>)>, Seq<(Seq<char>, Seq<char>)>);

/// View of the component-instance table.
pub open spec fn comps_view(
    s: Seq<(String, (Vec<(String, String)>, Vec<(String, String)>))>,
) -> Seq<(Seq<char>, CompV)> {
    s.map_values(
        |p: (String, (Vec<(String, String)>, Vec<(String, String)>))|
            (p.0@, (pairs_view(p.1.0@), pairs_view(p.1.1@))),
    )
}

/// Binds `field -> txt` among the inputs of the instance keyed `key`; no
/// instance with that key, nothing recorded.
pub open spec fn comp_add_input(
    m: Seq<(Seq<char>, CompV)>,
    key: Seq<char>,
    field: Seq<char>,
    txt: Seq<char>,
) -> Seq<(Seq<char>, CompV)> {
    let i = find_assoc_index(m, key);
    if i < m.len() {
        m.update(i, (m[i].0, (upsert(m[i].1.0, field, txt), m[i].1.1)))
    } else {
        m
    }
}

/// Binds `field -> var` among the outputs of the instance keyed `key`; no
/// instance with that key, nothing recorded.
pub open spec fn comp_add_output(
    m: Seq<(Seq<char>, CompV)>,
    key: Seq<char>,
    field: Seq<char>,
    var: Seq<char>,
) -> Seq<(Seq<char>, CompV)> {
    let i = find_assoc_index(m, key);
    if i < m.len() {
        m.update(i, (m[i].0, (m[i].1.0, upsert(m[i].1.1, field, var))))
    } else {
        m
    }
}

/// Folds `comp_add_input` over an access path, one component access at a
/// time.
pub open spec fn add_inputs(
    m: Seq<(Seq<char>, CompV)>,
    key: Seq<char>,
    accs: Seq<AccessV>,
    txt: Seq<char>,
) -> Seq<(Seq<char>, CompV)>
    decreases accs.len(),
{
    if accs.len() == 0 {
        m
    } else {
        let m1 = match accs[0] {
            AccessV::ComponentAccess(sub) => comp_add_input(m, key, sub, txt),
            AccessV::ArrayAccess(_) => m,
        };
        add_inputs(m1, key, accs.subrange(1, accs.len() as int), txt)
    }
}

/// Folds `comp_add_output` over an access path, one component access at a
/// time.
pub open spec fn add_outputs(
    m: Seq<(Seq<char>, CompV)>,
    key: Seq<char>,
    accs: Seq<AccessV>,
    var: Seq<char>,
) -> Seq<(Seq<char>, CompV)>
    decreases accs.len(),
{
    if accs.len() == 0 {
        m
    } else {
        let m1 = match accs[0] {
            AccessV::ComponentAccess(sub) => comp_add_output(m, key, sub, var),
            AccessV::ArrayAccess(_) => m,
        };
        add_outputs(m1, key, accs.subrange(1, accs.len() as int), var)
    }
}

/// One remembered component declaration.
struct AnonComponentRecord {
    loc: (usize, usize),
    template_name: String,
    var: String,
}

pub ghost struct ACRecordV {
    pub loc: (int, int),
    pub template_name: Seq<char>,
    pub var: Seq<char>,
}

/// The anonymous-component linter's state: per declared component instance
/// the recorded input and output bindings, and one record per component
/// declaration seen.
pub ghost struct ACState {
    pub components: Seq<(Seq<char>, CompV)>,
    pub records: Seq<ACRecordV>,
}

/// How one traversal event changes the anonymous-component linter's state: a
/// component declaration registers a fresh instance; a substitution whose
/// right-hand side is a variable records `field -> <rhs source text>` for
/// every component access on its left, and `field -> <assigned name>` for
/// every component access on its right.
pub open spec fn ac_step(src: Seq<char>, st: ACState, e: EventV) -> ACState {
    match e {
        EventV::Decl { meta, xtype, name, .. } => {
            if xtype == VariableType::Component {
                ACState {
                    components: upsert(st.components, name, (Seq::empty(), Seq::empty())),
                    records: st.records.push(
                        ACRecordV {
                            loc: (meta.start, meta.end),
                            template_name: match meta.component_inference {
                                Option::Some(t) => t,
                                Option::None => Seq::empty(),
                            },
                            var: name,
                        },
                    ),
                }
            } else {
                st
            }
        },
        EventV::Subst { var, access, rhe, .. } => match rhe {
            ExprV::Variable { name: rname, access: raccess, .. } => {
                let m = spec_expr_meta(rhe);
                let txt = src.subrange(m.start, m.end);
                ACState {
                    components: add_outputs(
                        add_inputs(st.components, var, access, txt),
                        rname,
                        raccess,
                        var,
                    ),
                    records: st.records,
                }
            },
            _ => st,
        },
        EventV::Block { .. } => st,
    }
}

/// A substitution event whose left access path touches a component field must
/// carry a right-hand side whose span lies in the source text, so that its
/// literal text can be recorded.
pub open spec fn ac_step_ok(src: Seq<char>, e: EventV) -> bool {
    match e {
        EventV::Subst { access, rhe, .. } => match rhe {
            ExprV::Variable { .. } => {
                let m = spec_expr_meta(rhe);
                (exists|i: int| 0 <= i < access.len() && access[i] is ComponentAccess) ==> (0
                    <= m.start <= m.end <= src.len())
            },
            _ => true,
        },
        _ => true,
    }
}

/// Every event of the sequence satisfies `ac_step_ok`.
pub open spec fn events_ok(src: Seq<char>, es: Seq<EventV>) -> bool {
    forall|i: int| 0 <= i < es.len() ==> ac_step_ok(src, #[trigger] es[i])
}

/// The rendered argument list: each declared input in order, mapped to the
/// text recorded for it.
pub open spec fn ac_args(
    inputs: Seq<Seq<char>>,
    m: Seq<(Seq<char>, Seq<char>)>,
) -> Seq<Seq<char>> {
    inputs.map_values(|i: Seq<char>| find_assoc(m, i)->Some_0)
}

/// The rendered capture list: each declared output in order, mapped to the
/// variable recorded for it, a placeholder when none was captured.
pub open spec fn ac_outs(
    outputs: Seq<Seq<char>>,
    m: Seq<(Seq<char>, Seq<char>)>,
) -> Seq<Seq<char>> {
    outputs.map_values(
        |o: Seq<char>|
            match find_assoc(m, o) {
                Option::Some(v) => v,
                Option::None => "_"@,
            },
    )
}

/// The suggested rewrite for one tracked instance.
pub open spec fn ac_msg(p: ProgramV, st: ACState, rec: ACRecordV) -> Seq<char> {
    let t = spec_find_template(p.templates, rec.template_name)->Some_0;
    let comp = find_assoc(st.components, rec.var)->Some_0;
    "You can use ("@ + spec_join_comma(ac_outs(t.outputs, comp.1)) + ") <== "@
        + rec.template_name + "()("@ + spec_join_comma(ac_args(t.inputs, comp.0)) + ");"@
}

/// What the anonymous-component linter renders at collect time: one note per
/// tracked instance.
pub open spec fn ac_render(p: ProgramV, st: ACState) -> Seq<LintV> {
    st.records.map_values(
        |rec: ACRecordV| LintV {
            error_code: ReportCode::AnonymousCompLint,
            error_msg: "Anonymous component: `"@ + rec.var + "`"@,
            loc: rec.loc,
            msg: ac_msg(p, st, rec),
            level: LintLevel::Note,
        },
    )
}

/// Collecting needs, for every record: its template resolvable by name, its
/// instance tracked, and every declared input of the template bound.
pub open spec fn ac_collect_ok(p: ProgramV, st: ACState) -> bool {
    forall|i: int|
        0 <= i < st.records.len() ==> {
            let rec = #[trigger] st.records[i];
            &&& spec_find_template(p.templates, rec.template_name) is Some
            &&& find_assoc(st.components, rec.var) is Some
            &&& ({
                let t = spec_find_template(p.templates, rec.template_name)->Some_0;
                let comp = find_assoc(st.components, rec.var)->Some_0;
                forall|j: int|
                    0 <= j < t.inputs.len() ==> find_assoc(comp.0, #[trigger] t.inputs[j]) is Some
            })
        }
}

/// Suggests the anonymous-component syntax for every declared component
/// instance, with inputs and outputs in their declared order.
pub struct AnonComponentLinter {
    components: Vec<(String, (Vec<(String, String)>, Vec<(String, String)>))>,
    anon_component_lints: Vec<AnonComponentRecord>,
}

impl View for AnonComponentLinter {
    type V = ACState;

    closed spec fn view(&self) -> ACState {
        ACState {
            components: comps_view(self.components@),
            records: self.anon_component_lints@.map_values(
                |r: AnonComponentRecord|
                    ACRecordV {
                        loc: (r.loc.0 as int, r.loc.1 as int),
                        template_name: r.template_name@,
                        var: r.var@,
                    },
            ),
        }
    }
}

/// Whether an access path touches a component field.
#[verifier::loop_isolation(false)]
fn has_component_access(accs: &Vec<Access>) -> (r: bool)
    ensures
        r == exists|i: int|
            0 <= i < accesses_view(accs@).len() && accesses_view(accs@)[i] is ComponentAccess,
{
    proof {
        lemma_accesses_view(accs@);
    }
    let ghost av = accesses_view(accs@);
    let mut i: usize = 0;
    while i < accs.len()
        invariant
            i <= av.len(),
            forall|j: int| 0 <= j < i ==> !(av[j] is ComponentAccess),
        decreases av.len() - i,
    {
        if matches!(&accs[i], Access::ComponentAccess(_)) {
            proof {
                assert(av[i as int] is ComponentAccess);
            }
            return true;
        }
        i += 1;
    }
    false
}

/// Finds the first instance keyed `k` in the component table.
#[verifier::loop_isolation(false)]
fn find_comp_index(
    v: &Vec<(String, (Vec<(String, String)>, Vec<(String, String)>))>,
    k: &str,
) -> (r: Option<usize>)
    ensures
        match r {
            Option::Some(i) => i < v@.len() && comps_view(v@)[i as int].0 == k@ && find_assoc(
                comps_view(v@),
                k@,
            ) == Option::Some(comps_view(v@)[i as int].1) && find_assoc_index(comps_view(v@), k@)
                == i as int,
            Option::None => find_assoc(comps_view(v@), k@) is None && find_assoc_index(
                comps_view(v@),
                k@,
            ) == v@.len(),
        },
{
    let ghost full = comps_view(v@);
    let mut i: usize = 0;
    proof {
        assert(full.subrange(0, full.len() as int) =~= full);
    }
    while i < v.len()
        invariant
            i <= v@.len(),
            find_assoc(full, k@) == find_assoc(full.subrange(i as int, full.len() as int), k@),
            find_assoc_index(full, k@) == i + find_assoc_index(
                full.subrange(i as int, full.len() as int),
                k@,
            ),
        decreases v@.len() - i,
    {
        proof {
            let tail = full.subrange(i as int, full.len() as int);
            assert(tail[0] == full[i as int]);
            assert(tail.subrange(1, tail.len() as int) =~= full.subrange(
                i as int + 1,
                full.len() as int,
            ));
        }
        if str_eq(v[i].0.as_str(), k) {
            return Option::Some(i);
        }
        i += 1;
    }
    proof {
        assert(full.subrange(full.len() as int, full.len() as int) =~= Seq::<
            (Seq<char>, CompV),
        >::empty());
    }
    Option::None
}

/// Finds the first entry keyed `k` among recorded bindings.
#[verifier::loop_isolation(false)]
fn find_pair_index(v: &Vec<(String, String)>, k: &str) -> (r: Option<usize>)
    ensures
        match r {
            Option::Some(i) => i < v@.len() && pairs_view(v@)[i as int].0 == k@ && find_assoc(
                pairs_view(v@),
                k@,
            ) == Option::Some(pairs_view(v@)[i as int].1),
            Option::None => find_assoc(pairs_view(v@), k@) is None,
        },
{
    let ghost full = pairs_view(v@);
    let mut i: usize = 0;
    proof {
        assert(full.subrange(0, full.len() as int) =~= full);
    }
    while i < v.len()
        invariant
            i <= v@.len(),
            find_assoc(full, k@) == find_assoc(full.subrange(i as int, full.len() as int), k@),
        decreases v@.len() - i,
    {
        proof {
            let tail = full.subrange(i as int, full.len() as int);
            assert(tail[0] == full[i as int]);
            assert(tail.subrange(1, tail.len() as int) =~= full.subrange(
                i as int + 1,
                full.len() as int,
            ));
        }
        if str_eq(v[i].0.as_str(), k) {
            return Option::Some(i);
        }
        i += 1;
    }
    proof {
        assert(full.subrange(full.len() as int, full.len() as int) =~= Seq::<
            (Seq<char>, Seq<char>),
        >::empty());
    }
    Option::None
}

/// Records `field -> txt` among the inputs of the instance keyed `key`, as
/// `comp_add_input` describes.
fn comp_insert_input(
    v: &mut Vec<(String, (Vec<(String, String)>, Vec<(String, String)>))>,
    key: &str,
    field: &str,
    txt: &String,
)
    ensures
        comps_view(final(v)@) == comp_add_input(comps_view(old(v)@), key@, field@, txt@),
{
    let ghost full = comps_view(v@);
    match find_comp_index(v, key) {
        Option::Some(ci) => {
            let (key_s, (ins, outs)) = v.remove(ci);
            let mut ins = ins;
            upsert_str(&mut ins, field, txt.clone());
            v.insert(ci, (key_s, (ins, outs)));
            proof {
                assert(comps_view(v@) =~= full.update(
                    ci as int,
                    (
                        full[ci as int].0,
                        (upsert(full[ci as int].1.0, field@, txt@), full[ci as int].1.1),
                    ),
                ));
            }
        },
        Option::None => {},
    }
}

/// Records `field -> var` among the outputs of the instance keyed `key`, as
/// `comp_add_output` describes.
fn comp_insert_output(
    v: &mut Vec<(String, (Vec<(String, String)>, Vec<(String, String)>))>,
    key: &str,
    field: &str,
    var: &str,
)
    ensures
        comps_view(final(v)@) == comp_add_output(comps_view(old(v)@), key@, field@, var@),
{
    let ghost full = comps_view(v@);
    match find_comp_index(v, key) {
        Option::Some(ci) => {
            let (key_s, (ins, outs)) = v.remove(ci);
            let mut outs = outs;
            upsert_str(&mut outs, field, var.to_owned());
            v.insert(ci, (key_s, (ins, outs)));
            proof {
                assert(comps_view(v@) =~= full.update(
                    ci as int,
                    (
                        full[ci as int].0,
                        (full[ci as int].1.0, upsert(full[ci as int].1.1, field@, var@)),
                    ),
                ));
            }
        },
        Option::None => {},
    }
}

/// `add_inputs` does nothing when the access path has no component access.
pub proof fn lemma_add_inputs_trivial(
    m: Seq<(Seq<char>, CompV)>,
    key: Seq<char>,
    accs: Seq<AccessV>,
    txt: Seq<char>,
)
    requires
        forall|i: int| 0 <= i < accs.len() ==> !((#[trigger] accs[i]) is ComponentAccess),
    ensures
        add_inputs(m, key, accs, txt) == m,
    decreases accs.len(),
{
    if accs.len() > 0 {
        lemma_add_inputs_trivial(m, key, accs.subrange(1, accs.len() as int), txt);
    }
}

/// `add_outputs` does nothing when the access path has no component access.
pub proof fn lemma_add_outputs_trivial(
    m: Seq<(Seq<char>, CompV)>,
    key: Seq<char>,
    accs: Seq<AccessV>,
    var: Seq<char>,
)
    requires
        forall|i: int| 0 <= i < accs.len() ==> !((#[trigger] accs[i]) is ComponentAccess),
    ensures
        add_outputs(m, key, accs, var) == m,
    decreases accs.len(),
{
    if accs.len() > 0 {
        lemma_add_outputs_trivial(m, key, accs.subrange(1, accs.len() as int), var);
    }
}

impl AnonComponentLinter {
    pub fn new() -> (r: AnonComponentLinter)
        ensures
            r@ == (ACState {
                components: Seq::<(Seq<char>, CompV)>::empty(),
                records: Seq::<ACRecordV>::empty(),
            }),
    {
        let r = AnonComponentLinter { components: Vec::new(), anon_component_lints: Vec::new() };
        proof {
            assert(r@.components =~= Seq::<(Seq<char>, CompV)>::empty());
            assert(r@.records =~= Seq::<ACRecordV>::empty());
        }
        r
    }

    /// Nothing to set up before the walk.
    pub fn init(&mut self, program: &mut Program)
        ensures
            final(self)@ == old(self)@,
            *final(program) == *old(program),
    {
    }

    /// Registers every component declaration as a tracked instance, under the
    /// template name the external name-resolution pass attached to it.
    pub fn visit_declaration(
        &mut self,
        _program: &Program,
        meta: &Meta,
        xtype: &VariableType,
        name: &String,
        _dimensions: &Vec<Expression>,
        _is_constant: bool,
    )
        ensures
            final(self)@ == ac_step(
                _program@.source,
                old(self)@,
                EventV::Decl {
                    meta: meta@,
                    xtype: *xtype,
                    name: name@,
                    dimensions: crate::ast::exprs_view(_dimensions@),
                    is_constant: _is_constant,
                },
            ),
    {
        if matches!(xtype, VariableType::Component) {
            let ghost st0 = self@;
            let ghost full = comps_view(self.components@);
            // Register the instance with empty binding tables, replacing any
            // earlier instance of the same name.
            match find_comp_index(&self.components, name.as_str()) {
                Option::Some(ci) => {
                    self.components.remove(ci);
                    self.components.insert(ci, (name.clone(), (Vec::new(), Vec::new())));
                    proof {
                        lemma_find_assoc_index(full, name@);
                        lemma_upsert_at_index(full, name@, (Seq::empty(), Seq::empty()));
                        assert(comps_view(self.components@) =~~= full.update(
                            ci as int,
                            (name@, (Seq::empty(), Seq::empty())),
                        ));
                    }
                },
                Option::None => {
                    self.components.push((name.clone(), (Vec::new(), Vec::new())));
                    proof {
                        lemma_find_assoc_index(full, name@);
                        lemma_upsert_at_index(full, name@, (Seq::empty(), Seq::empty()));
                        assert(comps_view(self.components@) =~~= full.push(
                            (name@, (Seq::empty(), Seq::empty())),
                        ));
                    }
                },
            }
            let template_name = match &meta.component_inference {
                Option::Some(t) => t.clone(),
                Option::None => String::new(),
            };
            self.anon_component_lints.push(
                AnonComponentRecord { loc: (meta.start, meta.end), template_name, var: name.clone() },
            );
            proof {
                assert(self@.records =~= st0.records.push(
                    ACRecordV {
                        loc: (meta@.start, meta@.end),
                        template_name: match meta@.component_inference {
                            Option::Some(t) => t,
                            Option::None => Seq::empty(),
                        },
                        var: name@,
                    },
                ));
            }
        }
    }

    /// Records the bindings a substitution reveals: inputs handed to a
    /// component on the left, outputs captured from one on the right.
    #[verifier::loop_isolation(false)]
    pub fn visit_substitution(
        &mut self,
        program: &Program,
        _meta: &Meta,
        var: &str,
        access: &Vec<Access>,
        _op: &AssignOp,
        rhe: &Expression,
    )
        ensures
            ({
                let ev = EventV::Subst {
                    meta: _meta@,
                    var: var@,
                    access: accesses_view(access@),
                    op: *_op,
                    rhe: rhe@,
                };
                ac_step_ok(program@.source, ev) ==> final(self)@ == ac_step(
                    program@.source,
                    old(self)@,
                    ev,
                )
            }),
            final(self)@.records == old(self)@.records,
    {
        proof {
            lemma_accesses_view(access@);
        }
        if let Expression::Variable { name: rname, access: raccess, .. } = rhe {
            proof {
                lemma_accesses_view(raccess@);
            }
            let ghost st0 = self@;
            let ghost src = program@.source;
            let ghost av = accesses_view(access@);
            let ghost rav = accesses_view(raccess@);
            let ghost m = spec_expr_meta(rhe@);
            let ghost txtv = src.subrange(m.start, m.end);
            let has_l = has_component_access(access);
            if has_l {
                let em = rhe.get_meta();
                if em.start <= em.end && em.end <= program.source.as_str().unicode_len() {
                    let txt = program.source_slice(em.start, em.end);
                    let mut i: usize = 0;
                    proof {
                        assert(av.subrange(0, av.len() as int) =~= av);
                    }
                    while i < access.len()
                        invariant
                            i <= av.len(),
                            self@.records == st0.records,
                            add_inputs(st0.components, var@, av, txtv) == add_inputs(
                                comps_view(self.components@),
                                var@,
                                av.subrange(i as int, av.len() as int),
                                txtv,
                            ),
                        decreases av.len() - i,
                    {
                        proof {
                            let tail = av.subrange(i as int, av.len() as int);
                            assert(tail[0] == av[i as int]);
                            assert(tail.subrange(1, tail.len() as int) =~= av.subrange(
                                i as int + 1,
                                av.len() as int,
                            ));
                        }
                        match &access[i] {
                            Access::ComponentAccess(sub) => {
                                comp_insert_input(
                                    &mut self.components,
                                    var,
                                    sub.as_str(),
                                    &txt,
                                );
                            },
                            Access::ArrayAccess(_) => {},
                        }
                        i += 1;
                    }
                    proof {
                        assert(av.subrange(av.len() as int, av.len() as int) =~= Seq::<
                            AccessV,
                        >::empty());
                    }
                }
            } else {
                proof {
                    lemma_add_inputs_trivial(st0.components, var@, av, txtv);
                }
            }
            // Outputs captured from a component on the right.
            let ghost mid = comps_view(self.components@);
            let has_r = has_component_access(raccess);
            if has_r {
                let mut i: usize = 0;
                proof {
                    assert(rav.subrange(0, rav.len() as int) =~= rav);
                }
                while i < raccess.len()
                    invariant
                        i <= rav.len(),
                        self@.records == st0.records,
                        add_outputs(mid, rname@, rav, var@) == add_outputs(
                            comps_view(self.components@),
                            rname@,
                            rav.subrange(i as int, rav.len() as int),
                            var@,
                        ),
                    decreases rav.len() - i,
                {
                    proof {
                        let tail = rav.subrange(i as int, rav.len() as int);
                        assert(tail[0] == rav[i as int]);
                        assert(tail.subrange(1, tail.len() as int) =~= rav.subrange(
                            i as int + 1,
                            rav.len() as int,
                        ));
                    }
                    match &raccess[i] {
                        Access::ComponentAccess(sub) => {
                            comp_insert_output(&mut self.components, rname.as_str(), sub.as_str(), var);
                        },
                        Access::ArrayAccess(_) => {},
                    }
                    i += 1;
                }
                proof {
                    assert(rav.subrange(rav.len() as int, rav.len() as int) =~= Seq::<
                        AccessV,
                    >::empty());
                }
            } else {
                proof {
                    lemma_add_outputs_trivial(mid, rname@, rav, var@);
                }
            }
        }
    }

    pub fn visit_block(&mut self, _program: &Program, _meta: &Meta, _stmts: &Vec<Statement>)
        ensures
            final(self)@ == old(self)@,
    {
    }

    /// Renders one note per tracked instance, as `ac_render` describes. A
    /// record whose template or instance cannot be resolved, or one of whose
    /// declared inputs was never bound, is skipped; `ac_collect_ok` says when
    /// that cannot happen.
    #[verifier::loop_isolation(false)]
    pub fn lint(&mut self, program: &Program) -> (r: Vec<Lint>)
        ensures
            ac_collect_ok(program@, old(self)@) ==> r@.map_values(|l: Lint| l@) == ac_render(
                program@,
                old(self)@,
            ),
            final(self)@ == old(self)@,
    {
        let ghost st = self@;
        let ghost target = ac_render(program@, st);
        let ghost ok = ac_collect_ok(program@, st);
        let mut out: Vec<Lint> = Vec::new();
        let mut i: usize = 0;
        while i < self.anon_component_lints.len()
            invariant
                i <= st.records.len(),
                self@ == st,
                ok ==> out@.len() == i && forall|j: int|
                    0 <= j < i ==> (#[trigger] out@[j])@ == target[j],
            decreases st.records.len() - i,
        {
            let rec = &self.anon_component_lints[i];
            proof {
                assert(st.records[i as int] == ACRecordV {
                    loc: (rec.loc.0 as int, rec.loc.1 as int),
                    template_name: rec.template_name@,
                    var: rec.var@,
                });
            }
            let template = match program.get_template(rec.template_name.as_str()) {
                Option::Some(t) => t,
                Option::None => {
                    proof {
                        if ok {
                            assert(spec_find_template(
                                program@.templates,
                                st.records[i as int].template_name,
                            ) is Some);
                            assert(false);
                        }
                    }
                    i += 1;
                    continue ;
                },
            };
            let ci = match find_comp_index(&self.components, rec.var.as_str()) {
                Option::Some(ci) => ci,
                Option::None => {
                    proof {
                        if ok {
                            assert(find_assoc(st.components, st.records[i as int].var) is Some);
                            assert(false);
                        }
                    }
                    i += 1;
                    continue ;
                },
            };
            let ghost comp = find_assoc(st.components, rec.var@)->Some_0;
            let entry = &self.components[ci];
            proof {
                assert(pairs_view(entry.1.0@) == comp.0);
                assert(pairs_view(entry.1.1@) == comp.1);
            }
            // Arguments: every declared input, in order.
            let mut args: Vec<String> = Vec::new();
            let mut complete: bool = true;
            let mut j: usize = 0;
            while j < template.inputs.len()
                invariant
                    j <= template@.inputs.len(),
                    complete ==> args@.len() == j && forall|jj: int|
                        0 <= jj < j ==> (#[trigger] args@[jj])@ == ac_args(
                            template@.inputs,
                            comp.0,
                        )[jj],
                    !complete ==> !ok,
                decreases template@.inputs.len() - j,
            {
                proof {
                    assert(template@.inputs[j as int] == template.inputs@[j as int]@);
                }
                match find_pair_index(&entry.1.0, template.inputs[j].as_str()) {
                    Option::Some(pi) => {
                        args.push(entry.1.0[pi].1.clone());
                    },
                    Option::None => {
                        proof {
                            if ok {
                                assert(find_assoc(
                                    comp.0,
                                    template@.inputs[j as int],
                                ) is Some);
                                assert(false);
                            }
                        }
                        complete = false;
                    },
                }
                j += 1;
            }
            if !complete {
                i += 1;
                continue ;
            }
            // Captures: every declared output, in order, a placeholder when
            // never captured.
            let mut outs: Vec<String> = Vec::new();
            let mut j: usize = 0;
            while j < template.outputs.len()
                invariant
                    j <= template@.outputs.len(),
                    outs@.len() == j,
                    forall|jj: int|
                        0 <= jj < j ==> (#[trigger] outs@[jj])@ == ac_outs(
                            template@.outputs,
                            comp.1,
                        )[jj],
                decreases template@.outputs.len() - j,
            {
                proof {
                    assert(template@.outputs[j as int] == template.outputs@[j as int]@);
                }
                match find_pair_index(&entry.1.1, template.outputs[j].as_str()) {
                    Option::Some(pi) => {
                        outs.push(entry.1.1[pi].1.clone());
                    },
                    Option::None => {
                        outs.push("_".to_owned());
                    },
                }
                j += 1;
            }
            let args_s = join_comma(&args);
            let outs_s = join_comma(&outs);
            let mut msg = "You can use (".to_owned();
            msg.append(outs_s.as_str());
            msg.append(") <== ");
            msg.append(rec.template_name.as_str());
            msg.append("()(");
            msg.append(args_s.as_str());
            msg.append(");");
            let mut emsg = "Anonymous component: `".to_owned();
            emsg.append(rec.var.as_str());
            emsg.append("`");
            proof {
                if ok {
                    assert(args@.map_values(|s: String| s@) =~= ac_args(
                        template@.inputs,
                        comp.0,
                    ));
                    assert(outs@.map_values(|s: String| s@) =~= ac_outs(
                        template@.outputs,
                        comp.1,
                    ));
                }
            }
            out.push(
                Lint {
                    error_code: ReportCode::AnonymousCompLint,
                    error_msg: emsg,
                    loc: rec.loc,
                    msg,
                    level: LintLevel::Note,
                },
            );
            i += 1;
        }
        proof {
            if ok {
                assert(out@.map_values(|l: Lint| l@) =~= target);
            }
        }
        out
    }
}

/// The visitor contract a pluggable linter meets: one-time setup before the
/// walk, a callback per declaration, substitution and block, and a final
/// collection of the lints found.
pub trait AstVisitor {
    fn init(&mut self, program: &mut Program);

    fn visit_declaration(
        &mut self,
        program: &Program,
        meta: &Meta,
        xtype: &VariableType,
        name: &String,
        dimensions: &Vec<Expression>,
        is_constant: bool,
    );

    fn visit_substitution(
        &mut self,
        program: &Program,
        meta: &Meta,
        var: &str,
        access: &Vec<Access>,
        op: &AssignOp,
        rhe: &Expression,
    );

    fn visit_block(&mut self, program: &Program, meta: &Meta, stmts: &Vec<Statement>);

    fn lint(&mut self, program: &Program) -> Vec<Lint>;
}

impl AstVisitor for ConstantSignalLinter {
    fn init(&mut self, program: &mut Program) {
        self.init(program)
    }

    fn visit_declaration(
        &mut self,
        program: &Program,
        meta: &Meta,
        xtype: &VariableType,
        name: &String,
        dimensions: &Vec<Expression>,
        is_constant: bool,
    ) {
        self.visit_declaration(program, meta, xtype, name, dimensions, is_constant)
    }

    fn visit_substitution(
        &mut self,
        program: &Program,
        meta: &Meta,
        var: &str,
        access: &Vec<Access>,
        op: &AssignOp,
        rhe: &Expression,
    ) {
        self.visit_substitution(program, meta, var, access, op, rhe)
    }

    fn visit_block(&mut self, program: &Program, meta: &Meta, stmts: &Vec<Statement>) {
        self.visit_block(program, meta, stmts)
    }

    fn lint(&mut self, program: &Program) -> Vec<Lint> {
        self.lint(program)
    }
}

impl AstVisitor for AnonComponentLinter {
    fn init(&mut self, program: &mut Program) {
        self.init(program)
    }

    fn visit_declaration(
        &mut self,
        program: &Program,
        meta: &Meta,
        xtype: &VariableType,
        name: &String,
        dimensions: &Vec<Expression>,
        is_constant: bool,
    ) {
        self.visit_declaration(program, meta, xtype, name, dimensions, is_constant)
    }

    fn visit_substitution(
        &mut self,
        program: &Program,
        meta: &Meta,
        var: &str,
        access: &Vec<Access>,
        op: &AssignOp,
        rhe: &Expression,
    ) {
        self.visit_substitution(program, meta, var, access, op, rhe)
    }

    fn visit_block(&mut self, program: &Program, meta: &Meta, stmts: &Vec<Statement>) {
        self.visit_block(program, meta, stmts)
    }

    fn lint(&mut self, program: &Program) -> Vec<Lint> {
        self.lint(program)
    }
}

/// The closed set of linters the orchestrator runs: dispatch is by variant,
/// so each registered linter's behavior stays statically known.
pub enum LinterKind {
    Anon(AnonComponentLinter),
    Constant(ConstantSignalLinter),
}

pub ghost enum LinterV {
    Anon(ACState),
    Constant(CSState),
}

impl View for LinterKind {
    type V = LinterV;

    open spec fn view(&self) -> LinterV {
        match self {
            LinterKind::Anon(a) => LinterV::Anon(a@),
            LinterKind::Constant(c) => LinterV::Constant(c@),
        }
    }
}

/// How one traversal event changes one linter's state.
pub open spec fn linter_step(src: Seq<char>, lv: LinterV, e: EventV) -> LinterV {
    match lv {
        LinterV::Anon(st) => LinterV::Anon(ac_step(src, st, e)),
        LinterV::Constant(st) => LinterV::Constant(cs_step(st, e)),
    }
}

/// A linter's state after a whole event sequence.
pub open spec fn linter_fold(src: Seq<char>, lv: LinterV, es: Seq<EventV>) -> LinterV
    decreases es.len(),
{
    if es.len() == 0 {
        lv
    } else {
        linter_fold(src, linter_step(src, lv, es[0]), es.subrange(1, es.len() as int))
    }
}

/// Folding a concatenation folds the pieces in turn.
pub proof fn lemma_linter_fold_app(src: Seq<char>, lv: LinterV, a: Seq<EventV>, b: Seq<EventV>)
    ensures
        linter_fold(src, lv, a + b) == linter_fold(src, linter_fold(src, lv, a), b),
    decreases a.len(),
{
    if a.len() == 0 {
        assert(a + b =~= b);
    } else {
        assert((a + b)[0] == a[0]);
        assert((a + b).subrange(1, (a + b).len() as int) =~= a.subrange(1, a.len() as int) + b);
        lemma_linter_fold_app(src, linter_step(src, lv, a[0]), a.subrange(1, a.len() as int), b);
    }
}

/// Event-sequence well-formedness distributes over concatenation.
pub proof fn lemma_events_ok_app(src: Seq<char>, a: Seq<EventV>, b: Seq<EventV>)
    ensures
        events_ok(src, a + b) <==> (events_ok(src, a) && events_ok(src, b)),
{
    if events_ok(src, a + b) {
        assert forall|i: int| 0 <= i < a.len() implies ac_step_ok(src, #[trigger] a[i]) by {
            assert((a + b)[i] == a[i]);
        }
        assert forall|i: int| 0 <= i < b.len() implies ac_step_ok(src, #[trigger] b[i]) by {
            assert((a + b)[a.len() + i] == b[i]);
        }
    }
    if events_ok(src, a) && events_ok(src, b) {
        assert forall|i: int| 0 <= i < (a + b).len() implies ac_step_ok(
            src,
            #[trigger] (a + b)[i],
        ) by {
            if i < a.len() {
                assert((a + b)[i] == a[i]);
            } else {
                assert((a + b)[i] == b[i - a.len()]);
            }
        }
    }
}

/// What one linter renders at collect time.
pub open spec fn linter_collect(p: ProgramV, lv: LinterV) -> Seq<LintV> {
    match lv {
        LinterV::Anon(st) => ac_render(p, st),
        LinterV::Constant(st) => cs_render(p, st),
    }
}

/// Whether one linter's collect preconditions hold.
pub open spec fn linter_collect_ok(p: ProgramV, lv: LinterV) -> bool {
    match lv {
        LinterV::Anon(st) => ac_collect_ok(p, st),
        LinterV::Constant(st) => cs_collect_ok(p, st),
    }
}

/// The concatenated output of several linters, in registration order.
pub open spec fn linters_collect(p: ProgramV, lvs: Seq<LinterV>) -> Seq<LintV>
    decreases lvs.len(),
{
    if lvs.len() == 0 {
        Seq::empty()
    } else {
        linter_collect(p, lvs[0]) + linters_collect(p, lvs.subrange(1, lvs.len() as int))
    }
}

/// Applies one declaration event to every linter, in order.
#[verifier::loop_isolation(false)]
fn dispatch_declaration(
    linters: &mut Vec<LinterKind>,
    program: &Program,
    meta: &Meta,
    xtype: &VariableType,
    name: &String,
    dimensions: &Vec<Expression>,
    is_constant: bool,
)
    ensures
        final(linters)@.len() == old(linters)@.len(),
        forall|i: int|
            0 <= i < old(linters)@.len() ==> (#[trigger] final(linters)@[i])@ == linter_step(
                program@.source,
                old(linters)@[i]@,
                EventV::Decl {
                    meta: meta@,
                    xtype: *xtype,
                    name: name@,
                    dimensions: crate::ast::exprs_view(dimensions@),
                    is_constant,
                },
            ),
{
    let ghost ev = EventV::Decl {
        meta: meta@,
        xtype: *xtype,
        name: name@,
        dimensions: crate::ast::exprs_view(dimensions@),
        is_constant,
    };
    let mut i: usize = 0;
    while i < linters.len()
        invariant
            i <= old(linters)@.len(),
            linters@.len() == old(linters)@.len(),
            forall|j: int|
                0 <= j < i ==> (#[trigger] linters@[j])@ == linter_step(
                    program@.source,
                    old(linters)@[j]@,
                    ev,
                ),
            forall|j: int| i <= j < linters@.len() ==> linters@[j] == old(linters)@[j],
        decreases linters@.len() - i,
    {
        let ghost pre = linters@;
        let mut lk = linters.remove(i);
        match &mut lk {
            LinterKind::Anon(a) => a.visit_declaration(
                program,
                meta,
                xtype,
                name,
                dimensions,
                is_constant,
            ),
            LinterKind::Constant(c) => c.visit_declaration(
                program,
                meta,
                xtype,
                name,
                dimensions,
                is_constant,
            ),
        }
        linters.insert(i, lk);
        proof {
            assert(linters@ =~= pre.update(i as int, linters@[i as int]));
        }
        i += 1;
    }
}

/// Applies one substitution event to every linter, in order.
#[verifier::loop_isolation(false)]
fn dispatch_substitution(
    linters: &mut Vec<LinterKind>,
    program: &Program,
    meta: &Meta,
    var: &str,
    access: &Vec<Access>,
    op: &AssignOp,
    rhe: &Expression,
)
    ensures
        final(linters)@.len() == old(linters)@.len(),
        ({
            let ev = EventV::Subst {
                meta: meta@,
                var: var@,
                access: accesses_view(access@),
                op: *op,
                rhe: rhe@,
            };
            ac_step_ok(program@.source, ev) ==> forall|i: int|
                0 <= i < old(linters)@.len() ==> (#[trigger] final(linters)@[i])@ == linter_step(
                    program@.source,
                    old(linters)@[i]@,
                    ev,
                )
        }),
{
    let ghost ev = EventV::Subst {
        meta: meta@,
        var: var@,
        access: accesses_view(access@),
        op: *op,
        rhe: rhe@,
    };
    let mut i: usize = 0;
    while i < linters.len()
        invariant
            i <= old(linters)@.len(),
            linters@.len() == old(linters)@.len(),
            ac_step_ok(program@.source, ev) ==> forall|j: int|
                0 <= j < i ==> (#[trigger] linters@[j])@ == linter_step(
                    program@.source,
                    old(linters)@[j]@,
                    ev,
                ),
            forall|j: int| i <= j < linters@.len() ==> linters@[j] == old(linters)@[j],
        decreases linters@.len() - i,
    {
        let ghost pre = linters@;
        let mut lk = linters.remove(i);
        match &mut lk {
            LinterKind::Anon(a) => a.visit_substitution(program, meta, var, access, op, rhe),
            LinterKind::Constant(c) => c.visit_substitution(program, meta, var, access, op, rhe),
        }
        linters.insert(i, lk);
        proof {
            assert(linters@ =~= pre.update(i as int, linters@[i as int]));
        }
        i += 1;
    }
}

/// Applies one block event to every linter, in order.
#[verifier::loop_isolation(false)]
fn dispatch_block(
    linters: &mut Vec<LinterKind>,
    program: &Program,
    meta: &Meta,
    stmts: &Vec<Statement>,
)
    ensures
        final(linters)@.len() == old(linters)@.len(),
        forall|i: int|
            0 <= i < old(linters)@.len() ==> (#[trigger] final(linters)@[i])@ == linter_step(
                program@.source,
                old(linters)@[i]@,
                EventV::Block { meta: meta@, stmts: stmts_view(stmts@) },
            ),
{
    let ghost ev = EventV::Block { meta: meta@, stmts: stmts_view(stmts@) };
    let mut i: usize = 0;
    while i < linters.len()
        invariant
            i <= old(linters)@.len(),
            linters@.len() == old(linters)@.len(),
            forall|j: int|
                0 <= j < i ==> (#[trigger] linters@[j])@ == linter_step(
                    program@.source,
                    old(linters)@[j]@,
                    ev,
                ),
            forall|j: int| i <= j < linters@.len() ==> linters@[j] == old(linters)@[j],
        decreases linters@.len() - i,
    {
        let ghost pre = linters@;
        let mut lk = linters.remove(i);
        match &mut lk {
            LinterKind::Anon(a) => a.visit_block(program, meta, stmts),
            LinterKind::Constant(c) => c.visit_block(program, meta, stmts),
        }
        linters.insert(i, lk);
        proof {
            assert(linters@ =~= pre.update(i as int, linters@[i as int]));
        }
        i += 1;
    }
}

/// Runs a set of registered linters over a program: one pre-order walk of
/// every template body, then one collection pass.
pub struct StaticLinter {
    program: Program,
    pub linters: Vec<LinterKind>,
}

impl StaticLinter {
    /// The program under the walk.
    pub closed spec fn spec_program(&self) -> ProgramV {
        self.program@
    }

    /// The registered linters, in registration order.
    pub closed spec fn spec_linters(&self) -> Seq<LinterKind> {
        self.linters@
    }

    /// Creates an orchestrator with the given linters, run in this order.
    pub fn new(program: Program, linters: Vec<LinterKind>) -> (r: StaticLinter)
        ensures
            r.spec_program() == program@,
            r.spec_linters() == linters@,
    {
        StaticLinter { program, linters }
    }

    /// Walks one statement tree, dispatching its events to every linter in
    /// order.
    #[verifier::loop_isolation(false)]
    pub fn walk_ast(&mut self, s: &Statement)
        ensures
            final(self).spec_program() == old(self).spec_program(),
            final(self).spec_linters().len() == old(self).spec_linters().len(),
            events_ok(old(self).spec_program().source, events_of(s@)) ==> forall|i: int|
                0 <= i < old(self).spec_linters().len() ==> (#[trigger] final(self).spec_linters()[i])@
                    == linter_fold(
                    old(self).spec_program().source,
                    old(self).spec_linters()[i]@,
                    events_of(s@),
                ),
        decreases *s,
    {
        let ghost src = self.program@.source;
        let ghost lv0 = self.spec_linters();
        proof {
            assert(self.spec_linters() == self.linters@);
        }
        match s {
            Statement::IfThenElse { if_case, else_case, .. } => {
                let ghost ev_if = events_of(if_case@);
                self.walk_ast(&*if_case);
                let ghost mid = self.spec_linters();
                match else_case {
                    Option::Some(else_block) => {
                        let ghost ev_else = events_of(else_block@);
                        proof {
                            assert(events_of(s@) == ev_if + ev_else);
                        }
                        self.walk_ast(&*else_block);
                        proof {
                            if events_ok(src, events_of(s@)) {
                                lemma_events_ok_app(src, ev_if, ev_else);
                                assert forall|i: int|
                                    0 <= i < lv0.len() implies (#[trigger] self.spec_linters()[i])@
                                    == linter_fold(src, lv0[i]@, events_of(s@)) by {
                                    lemma_linter_fold_app(src, lv0[i]@, ev_if, ev_else);
                                    assert(mid[i]@ == linter_fold(src, lv0[i]@, ev_if));
                                    assert(self.spec_linters()[i]@ == linter_fold(
                                        src,
                                        mid[i]@,
                                        ev_else,
                                    ));
                                }
                            }
                        }
                    },
                    Option::None => {
                        proof {
                            assert(events_of(s@) =~= ev_if + Seq::<EventV>::empty());
                            assert(events_of(s@) =~= ev_if);
                            if events_ok(src, events_of(s@)) {
                                assert forall|i: int|
                                    0 <= i < lv0.len() implies (#[trigger] self.spec_linters()[i])@
                                    == linter_fold(src, lv0[i]@, events_of(s@)) by {
                                    assert(self.spec_linters()[i]@ == linter_fold(
                                        src,
                                        lv0[i]@,
                                        ev_if,
                                    ));
                                }
                            }
                        }
                    },
                }
            },
            Statement::While { stmt, .. } => {
                let ghost ev_body = events_of(stmt@);
                self.walk_ast(&*stmt);
                proof {
                    assert(events_of(s@) == ev_body);
                    if events_ok(src, events_of(s@)) {
                        assert forall|i: int|
                            0 <= i < lv0.len() implies (#[trigger] self.spec_linters()[i])@
                            == linter_fold(src, lv0[i]@, events_of(s@)) by {
                            assert(self.spec_linters()[i]@ == linter_fold(
                                src,
                                lv0[i]@,
                                ev_body,
                            ));
                        }
                    }
                }
            },
            Statement::Block { meta, stmts } => {
                let ghost ssv = stmts_view(stmts@);
                let ghost ev = EventV::Block { meta: meta@, stmts: ssv };
                proof {
                    lemma_stmts_view(stmts@);
                }
                dispatch_block(&mut self.linters, &self.program, meta, stmts);
                proof {
                    let full = events_of(s@);
                    assert(full =~= seq![ev] + events_seq(ssv));
                    assert(full[0] == ev);
                    assert(full.subrange(1, full.len() as int) =~= events_seq(ssv));
                    assert(ssv.subrange(0, ssv.len() as int) =~= ssv);
                }
                let mut i: usize = 0;
                while i < stmts.len()
                    invariant
                        i <= stmts@.len(),
                        self.program@ == old(self).program@,
                        self.linters@.len() == lv0.len(),
                        events_ok(src, events_of(s@)) ==> forall|li: int|
                            0 <= li < lv0.len() ==> linter_fold(
                                src,
                                (#[trigger] self.linters@[li])@,
                                events_seq(ssv.subrange(i as int, ssv.len() as int)),
                            ) == linter_fold(src, lv0[li]@, events_of(s@)),
                    decreases stmts@.len() - i,
                {
                    proof {
                        assert(decreases_to!(*s => (*s)->Block_stmts@[i as int]));
                        assert((*s)->Block_stmts == *stmts);
                    }
                    proof {
                        assert(self.spec_linters() == self.linters@);
                    }
                    let ghost pre = self.spec_linters();
                    let ghost tail = ssv.subrange(i as int, ssv.len() as int);
                    self.walk_ast(&stmts[i]);
                    proof {
                        assert(self.spec_linters() == self.linters@);
                        if events_ok(src, events_of(s@)) {
                            assert(tail[0] == stmts@[i as int]@);
                            assert(tail.subrange(1, tail.len() as int) =~= ssv.subrange(
                                i as int + 1,
                                ssv.len() as int,
                            ));
                            assert(events_seq(tail) == events_of(stmts@[i as int]@)
                                + events_seq(ssv.subrange(i as int + 1, ssv.len() as int)));
                            // the child's events are well formed
                            assert(events_of(s@) =~= seq![ev] + events_seq(ssv));
                            lemma_events_ok_app(src, seq![ev], events_seq(ssv));
                            lemma_events_ok_split_prefix(src, ssv, i as int);
                            assert forall|li: int|
                                0 <= li < lv0.len() implies linter_fold(
                                src,
                                (#[trigger] self.linters@[li])@,
                                events_seq(ssv.subrange(i as int + 1, ssv.len() as int)),
                            ) == linter_fold(src, lv0[li]@, events_of(s@)) by {
                                assert(self.spec_linters()[li]@ == linter_fold(
                                    src,
                                    pre[li]@,
                                    events_of(stmts@[i as int]@),
                                ));
                                lemma_linter_fold_app(
                                    src,
                                    pre[li]@,
                                    events_of(stmts@[i as int]@),
                                    events_seq(ssv.subrange(i as int + 1, ssv.len() as int)),
                                );
                            }
                        }
                    }
                    i += 1;
                }
                proof {
                    if events_ok(src, events_of(s@)) {
                        assert(ssv.subrange(ssv.len() as int, ssv.len() as int) =~= Seq::<
                            StmtV,
                        >::empty());
                        assert forall|li: int|
                            0 <= li < lv0.len() implies (#[trigger] self.spec_linters()[li])@
                            == linter_fold(src, lv0[li]@, events_of(s@)) by {
                            assert(self.spec_linters()[li] == self.linters@[li]);
                            assert(linter_fold(
                                src,
                                (self.linters@[li])@,
                                events_seq(ssv.subrange(ssv.len() as int, ssv.len() as int)),
                            ) == linter_fold(src, lv0[li]@, events_of(s@)));
                        }
                    }
                }
            },
            Statement::InitializationBlock { initializations, .. } => {
                let ghost ssv = stmts_view(initializations@);
                proof {
                    lemma_stmts_view(initializations@);
                    assert(events_of(s@) == events_seq(ssv));
                    assert(ssv.subrange(0, ssv.len() as int) =~= ssv);
                }
                let mut i: usize = 0;
                while i < initializations.len()
                    invariant
                        i <= initializations@.len(),
                        self.program@ == old(self).program@,
                        self.linters@.len() == lv0.len(),
                        events_ok(src, events_of(s@)) ==> forall|li: int|
                            0 <= li < lv0.len() ==> linter_fold(
                                src,
                                (#[trigger] self.linters@[li])@,
                                events_seq(ssv.subrange(i as int, ssv.len() as int)),
                            ) == linter_fold(src, lv0[li]@, events_of(s@)),
                    decreases initializations@.len() - i,
                {
                    proof {
                        assert(decreases_to!(
                            *s => (*s)->InitializationBlock_initializations@[i as int]));
                        assert((*s)->InitializationBlock_initializations == *initializations);
                    }
                    proof {
                        assert(self.spec_linters() == self.linters@);
                    }
                    let ghost pre = self.spec_linters();
                    let ghost tail = ssv.subrange(i as int, ssv.len() as int);
                    self.walk_ast(&initializations[i]);
                    proof {
                        assert(self.spec_linters() == self.linters@);
                        if events_ok(src, events_of(s@)) {
                            assert(tail[0] == initializations@[i as int]@);
                            assert(tail.subrange(1, tail.len() as int) =~= ssv.subrange(
                                i as int + 1,
                                ssv.len() as int,
                            ));
                            assert(events_seq(tail) == events_of(initializations@[i as int]@)
                                + events_seq(ssv.subrange(i as int + 1, ssv.len() as int)));
                            assert(events_of(s@) == events_seq(ssv));
                            lemma_events_ok_split_prefix(src, ssv, i as int);
                            assert forall|li: int|
                                0 <= li < lv0.len() implies linter_fold(
                                src,
                                (#[trigger] self.linters@[li])@,
                                events_seq(ssv.subrange(i as int + 1, ssv.len() as int)),
                            ) == linter_fold(src, lv0[li]@, events_of(s@)) by {
                                assert(self.spec_linters()[li]@ == linter_fold(
                                    src,
                                    pre[li]@,
                                    events_of(initializations@[i as int]@),
                                ));
                                lemma_linter_fold_app(
                                    src,
                                    pre[li]@,
                                    events_of(initializations@[i as int]@),
                                    events_seq(ssv.subrange(i as int + 1, ssv.len() as int)),
                                );
                            }
                        }
                    }
                    i += 1;
                }
                proof {
                    if events_ok(src, events_of(s@)) {
                        assert(ssv.subrange(ssv.len() as int, ssv.len() as int) =~= Seq::<
                            StmtV,
                        >::empty());
                        assert forall|li: int|
                            0 <= li < lv0.len() implies (#[trigger] self.spec_linters()[li])@
                            == linter_fold(src, lv0[li]@, events_of(s@)) by {
                            assert(self.spec_linters()[li] == self.linters@[li]);
                            assert(linter_fold(
                                src,
                                (self.linters@[li])@,
                                events_seq(ssv.subrange(ssv.len() as int, ssv.len() as int)),
                            ) == linter_fold(src, lv0[li]@, events_of(s@)));
                        }
                    }
                }
            },
            Statement::Declaration { meta, xtype, name, dimensions, is_constant } => {
                dispatch_declaration(
                    &mut self.linters,
                    &self.program,
                    meta,
                    xtype,
                    name,
                    dimensions,
                    *is_constant,
                );
                proof {
                    let ev = EventV::Decl {
                        meta: meta@,
                        xtype: *xtype,
                        name: name@,
                        dimensions: crate::ast::exprs_view(dimensions@),
                        is_constant: *is_constant,
                    };
                    assert(events_of(s@) =~= seq![ev]);
                    assert(seq![ev].subrange(1, 1) =~= Seq::<EventV>::empty());
                    reveal_with_fuel(linter_fold, 3);
                    assert forall|i: int|
                        0 <= i < lv0.len() implies (#[trigger] self.spec_linters()[i])@
                        == linter_fold(src, lv0[i]@, events_of(s@)) by {
                        assert(self.spec_linters()[i] == self.linters@[i]);
                        assert((self.linters@[i])@ == linter_step(src, lv0[i]@, ev));
                    }
                }
            },
            Statement::Substitution { meta, var, access, op, rhe } => {
                dispatch_substitution(
                    &mut self.linters,
                    &self.program,
                    meta,
                    var.as_str(),
                    access,
                    op,
                    rhe,
                );
                proof {
                    let ev = EventV::Subst {
                        meta: meta@,
                        var: var@,
                        access: accesses_view(access@),
                        op: *op,
                        rhe: rhe@,
                    };
                    assert(events_of(s@) =~= seq![ev]);
                    assert(seq![ev].subrange(1, 1) =~= Seq::<EventV>::empty());
                    if events_ok(src, events_of(s@)) {
                        assert(ac_step_ok(src, events_of(s@)[0]));
                        assert(ac_step_ok(src, ev));
                        reveal_with_fuel(linter_fold, 3);
                        assert forall|i: int|
                            0 <= i < lv0.len() implies (#[trigger] self.spec_linters()[i])@
                            == linter_fold(src, lv0[i]@, events_of(s@)) by {
                            assert(self.spec_linters()[i] == self.linters@[i]);
                            assert((self.linters@[i])@ == linter_step(src, lv0[i]@, ev));
                        }
                    }
                }
            },
            _ => {
                proof {
                    assert(events_of(s@) =~= Seq::<EventV>::empty());
                    assert forall|i: int|
                        0 <= i < lv0.len() implies (#[trigger] self.spec_linters()[i])@
                        == linter_fold(src, lv0[i]@, events_of(s@)) by {
                        assert(self.spec_linters()[i] == self.linters@[i]);
                        assert(linter_fold(src, lv0[i]@, events_of(s@)) == lv0[i]@);
                    }
                }
            },
        }
    }

    /// Runs `init` on every linter, walks every template body, and collects
    /// every linter's lints, in registration order.
    #[verifier::loop_isolation(false)]
    #[verifier::rlimit(100)]
    #[verifier::spinoff_prover]
    pub fn lint(&mut self) -> (r: Vec<Lint>)
        ensures
            ({
                let p = old(self).spec_program();
                let es = templates_events(p.templates);
                let folded = old(self).spec_linters().map_values(
                    |lk: LinterKind| linter_fold(p.source, lk@, es),
                );
                (events_ok(p.source, es) && (forall|i: int|
                    0 <= i < folded.len() ==> linter_collect_ok(p, #[trigger] folded[i])))
                    ==> r@.map_values(|l: Lint| l@) == linters_collect(p, folded)
            }),
    {
        let ghost p = self.program@;
        let ghost src = p.source;
        let ghost es = templates_events(p.templates);
        let ghost lv0 = self.linters@;
        let ghost folded = lv0.map_values(|lk: LinterKind| linter_fold(src, lk@, es));
        // One-time setup.
        let mut i: usize = 0;
        while i < self.linters.len()
            invariant
                i <= lv0.len(),
                self.program@ == p,
                self.linters@.len() == lv0.len(),
                forall|j: int|
                    0 <= j < lv0.len() ==> (#[trigger] self.linters@[j])@ == lv0[j]@,
            decreases lv0.len() - i,
        {
            let ghost pre = self.linters@;
            let mut lk = self.linters.remove(i);
            match &mut lk {
                LinterKind::Anon(a) => a.init(&mut self.program),
                LinterKind::Constant(c) => c.init(&mut self.program),
            }
            self.linters.insert(i, lk);
            proof {
                assert(self.linters@ =~= pre.update(i as int, self.linters@[i as int]));
                assert(self.linters@[i as int]@ == pre[i as int]@);
            }
            i += 1;
        }
        // The walk, template by template.
        proof {
            assert(p.templates.subrange(0, p.templates.len() as int) =~= p.templates);
        }
        let mut ti: usize = 0;
        while ti < self.program.templates.len()
            invariant
                ti <= p.templates.len(),
                self.program@ == p,
                self.linters@.len() == lv0.len(),
                self.linters@.len() == lv0.len(),
                events_ok(src, es) ==> forall|li: int|
                    0 <= li < lv0.len() ==> linter_fold(
                        src,
                        (#[trigger] self.linters@[li])@,
                        templates_events(p.templates.subrange(ti as int, p.templates.len() as int)),
                    ) == linter_fold(src, lv0[li]@, es),
            decreases p.templates.len() - ti,
        {
            let ghost pre = self.linters@;
            let ghost tail = p.templates.subrange(ti as int, p.templates.len() as int);
            let body = clone_stmt(&self.program.templates[ti].body);
            self.walk_ast(&body);
            proof {
                if events_ok(src, es) {
                    assert(tail[0] == p.templates[ti as int]);
                    assert(p.templates[ti as int].body == body@);
                    assert(tail.subrange(1, tail.len() as int) =~= p.templates.subrange(
                        ti as int + 1,
                        p.templates.len() as int,
                    ));
                    assert(templates_events(tail) == events_of(body@) + templates_events(
                        p.templates.subrange(ti as int + 1, p.templates.len() as int),
                    ));
                    lemma_templates_events_ok(src, p.templates, ti as int);
                    assert forall|li: int|
                        0 <= li < lv0.len() implies linter_fold(
                        src,
                        (#[trigger] self.linters@[li])@,
                        templates_events(
                            p.templates.subrange(ti as int + 1, p.templates.len() as int),
                        ),
                    ) == linter_fold(src, lv0[li]@, es) by {
                        lemma_linter_fold_app(
                            src,
                            pre[li]@,
                            events_of(body@),
                            templates_events(
                                p.templates.subrange(ti as int + 1, p.templates.len() as int),
                            ),
                        );
                    }
                }
            }
            ti += 1;
        }
        proof {
            if events_ok(src, es) {
                assert(p.templates.subrange(p.templates.len() as int, p.templates.len() as int)
                    =~= Seq::<TemplateV>::empty());
                assert(p.templates.subrange(0, p.templates.len() as int) =~= p.templates);
            }
        }
        // Collection, in registration order.
        let ghost all_ok = events_ok(src, es) && (forall|k: int|
            0 <= k < folded.len() ==> linter_collect_ok(p, #[trigger] folded[k]));
        let mut lints: Vec<Lint> = Vec::new();
        proof {
            assert(folded.subrange(0, folded.len() as int) =~= folded);
            assert(lints@.map_values(|l: Lint| l@) =~= Seq::<LintV>::empty());
            assert(Seq::<LintV>::empty() + linters_collect(p, folded) =~= linters_collect(
                p,
                folded,
            ));
        }
        let mut i: usize = 0;
        while i < self.linters.len()
            invariant
                i <= lv0.len(),
                self.program@ == p,
                self.linters@.len() == lv0.len(),
                all_ok ==> forall|li: int|
                    0 <= li < lv0.len() ==> (#[trigger] self.linters@[li])@ == folded[li],
                all_ok ==> lints@.map_values(|l: Lint| l@) + linters_collect(
                    p,
                    folded.subrange(i as int, folded.len() as int),
                ) == linters_collect(p, folded),
            decreases lv0.len() - i,
        {
            let ghost pre = self.linters@;
            let ghost lints_pre = lints@;
            let mut lk = self.linters.remove(i);
            let mut found: Vec<Lint> = match &mut lk {
                LinterKind::Anon(a) => a.lint(&self.program),
                LinterKind::Constant(c) => c.lint(&self.program),
            };
            self.linters.insert(i, lk);
            proof {
                assert(self.linters@ =~= pre.update(i as int, self.linters@[i as int]));
                assert(self.linters@[i as int]@ == pre[i as int]@);
            }
            let ghost foundv = found@;
            lints.append(&mut found);
            proof {
                if all_ok {
                    let tail = folded.subrange(i as int, folded.len() as int);
                    assert(tail[0] == folded[i as int]);
                    assert(tail.subrange(1, tail.len() as int) =~= folded.subrange(
                        i as int + 1,
                        folded.len() as int,
                    ));
                    assert(foundv.map_values(|l: Lint| l@) == linter_collect(p, folded[i as int]));
                    assert(lints@.map_values(|l: Lint| l@) =~= lints_pre.map_values(
                        |l: Lint| l@,
                    ) + foundv.map_values(|l: Lint| l@));
                }
            }
            i += 1;
        }
        proof {
            if all_ok {
                assert(folded.subrange(folded.len() as int, folded.len() as int) =~= Seq::<
                    LinterV,
                >::empty());
                assert(folded.subrange(0, folded.len() as int) =~= folded);
            }
        }
        lints
    }
}

/// Well-formedness of a statement list's events carries to the events of one
/// element.
pub proof fn lemma_events_ok_split_prefix(src: Seq<char>, ssv: Seq<StmtV>, i: int)
    requires
        0 <= i < ssv.len(),
        events_ok(src, events_seq(ssv)),
    ensures
        events_ok(src, events_of(ssv[i])),
        events_ok(src, events_seq(ssv.subrange(i, ssv.len() as int))),
    decreases i,
{
    if i == 0 {
        lemma_events_ok_app(src, events_of(ssv[0]), events_seq(ssv.subrange(1, ssv.len() as int)));
        assert(ssv.subrange(0, ssv.len() as int) =~= ssv);
        lemma_events_ok_app(
            src,
            events_of(ssv[0]),
            events_seq(ssv.subrange(1, ssv.len() as int)),
        );
    } else {
        lemma_events_ok_app(src, events_of(ssv[0]), events_seq(ssv.subrange(1, ssv.len() as int)));
        let tail = ssv.subrange(1, ssv.len() as int);
        lemma_events_ok_split_prefix(src, tail, i - 1);
        assert(tail[i - 1] == ssv[i]);
        assert(tail.subrange(i - 1, tail.len() as int) =~= ssv.subrange(i, ssv.len() as int));
    }
}

/// Well-formedness of a whole program's events carries to one template's
/// body.
pub proof fn lemma_templates_events_ok(src: Seq<char>, ts: Seq<TemplateV>, i: int)
    requires
        0 <= i < ts.len(),
        events_ok(src, templates_events(ts)),
    ensures
        events_ok(src, events_of(ts[i].body)),
    decreases i,
{
    lemma_events_ok_app(
        src,
        events_of(ts[0].body),
        templates_events(ts.subrange(1, ts.len() as int)),
    );
    if i > 0 {
        let tail = ts.subrange(1, ts.len() as int);
        lemma_templates_events_ok(src, tail, i - 1);
        assert(tail[i - 1] == ts[i]);
    }
}

/// One report for the reporting collaborator: a lint bound to the program's
/// main file, at note severity for the style rules and error severity for the
/// loop rules.
pub struct Report {
    pub error_code: ReportCode,
    pub error_msg: String,
    pub level: LintLevel,
    pub loc: (usize, usize),
    pub file_id: usize,
    pub msg: String,
}

pub ghost struct ReportV {
    pub error_code: ReportCode,
    pub error_msg: Seq<char>,
    pub level: LintLevel,
    pub loc: (int, int),
    pub file_id: int,
    pub msg: Seq<char>,
}

impl View for Report {
    type V = ReportV;

    open spec fn view(&self) -> ReportV {
        ReportV {
            error_code: self.error_code,
            error_msg: self.error_msg@,
            level: self.level,
            loc: (self.loc.0 as int, self.loc.1 as int),
            file_id: self.file_id as int,
            msg: self.msg@,
        }
    }
}

/// The severity a rule's reports carry: the style hints are notes, the loop
/// verdicts errors.
pub open spec fn report_level(code: ReportCode) -> LintLevel {
    match code {
        ReportCode::AnonymousCompLint => LintLevel::Note,
        ReportCode::ConstantSignalLint => LintLevel::Note,
        ReportCode::LoopNoProgress => LintLevel::Error,
        ReportCode::LoopMayOverflow => LintLevel::Error,
    }
}

/// The report one lint becomes.
pub open spec fn report_of(file_id: int, l: LintV) -> ReportV {
    ReportV {
        error_code: l.error_code,
        error_msg: l.error_msg,
        level: report_level(l.error_code),
        loc: l.loc,
        file_id,
        msg: l.msg,
    }
}

/// Runs the anonymous-component and constant-signal linters over the program
/// and renders each lint as a report against the program's main file; no
/// lints, no report collection.
#[verifier::loop_isolation(false)]
pub fn report_lints(program: &Program) -> (r: Option<Vec<Report>>)
    ensures
        ({
            let p = program@;
            let es = templates_events(p.templates);
            let linters = seq![
                LinterV::Anon(
                    ACState {
                        components: Seq::<(Seq<char>, CompV)>::empty(),
                        records: Seq::<ACRecordV>::empty(),
                    },
                ),
                LinterV::Constant(
                    CSState {
                        records: Seq::<CSRecordV>::empty(),
                        signals: Seq::<Seq<char>>::empty(),
                        rhe: Seq::<(Seq<char>, MetaV)>::empty(),
                    },
                ),
            ];
            let folded = linters.map_values(|lv: LinterV| linter_fold(p.source, lv, es));
            let lints = linters_collect(p, folded);
            (events_ok(p.source, es) && (forall|i: int|
                0 <= i < folded.len() ==> linter_collect_ok(p, #[trigger] folded[i]))) ==> match r {
                Option::Some(rs) => lints.len() > 0 && rs@.len() == lints.len() && forall|i: int|
                    0 <= i < lints.len() ==> (#[trigger] rs@[i])@ == report_of(
                        p.file_id,
                        lints[i],
                    ),
                Option::None => lints.len() == 0,
            }
        }),
{
    let ghost p = program@;
    let ghost es = templates_events(p.templates);
    let ghost lspec = seq![
        LinterV::Anon(
            ACState {
                components: Seq::<(Seq<char>, CompV)>::empty(),
                records: Seq::<ACRecordV>::empty(),
            },
        ),
        LinterV::Constant(
            CSState {
                records: Seq::<CSRecordV>::empty(),
                signals: Seq::<Seq<char>>::empty(),
                rhe: Seq::<(Seq<char>, MetaV)>::empty(),
            },
        ),
    ];
    let ghost folded_spec = lspec.map_values(|lv: LinterV| linter_fold(p.source, lv, es));
    let mut linters: Vec<LinterKind> = Vec::new();
    linters.push(LinterKind::Anon(AnonComponentLinter::new()));
    linters.push(LinterKind::Constant(ConstantSignalLinter::new()));
    let mut analyser = StaticLinter::new(program.duplicate(), linters);
    let ghost lv = analyser.spec_linters();
    proof {
        assert(lv.len() == 2);
        assert(lv[0]@ == lspec[0]);
        assert(lv[1]@ == lspec[1]);
        assert(analyser.spec_program() == p);
        assert(lv.map_values(|lk: LinterKind| linter_fold(p.source, lk@, es)) =~= folded_spec);
    }
    let lints = analyser.lint();
    proof {
        let fv = lv.map_values(|lk: LinterKind| linter_fold(p.source, lk@, es));
        if events_ok(p.source, es) && (forall|k: int|
            0 <= k < folded_spec.len() ==> linter_collect_ok(p, #[trigger] folded_spec[k])) {
            assert forall|k: int| 0 <= k < fv.len() implies linter_collect_ok(
                p,
                #[trigger] fv[k],
            ) by {
                assert(fv[k] == folded_spec[k]);
            }
            assert(lints@.map_values(|l: Lint| l@) == linters_collect(p, fv));
            assert(linters_collect(p, fv) == linters_collect(p, folded_spec));
        }
    }
    let ghost lintsv = lints@;
    let mut reports: Vec<Report> = Vec::new();
    let mut i: usize = 0;
    while i < lints.len()
        invariant
            i <= lintsv.len(),
            lints@ == lintsv,
            reports@.len() == i,
            forall|j: int|
                0 <= j < i ==> (#[trigger] reports@[j])@ == report_of(
                    program@.file_id,
                    lintsv[j]@,
                ),
        decreases lintsv.len() - i,
    {
        let l = &lints[i];
        let level = match l.error_code {
            ReportCode::AnonymousCompLint => LintLevel::Note,
            ReportCode::ConstantSignalLint => LintLevel::Note,
            ReportCode::LoopNoProgress => LintLevel::Error,
            ReportCode::LoopMayOverflow => LintLevel::Error,
        };
        reports.push(
            Report {
                error_code: l.error_code,
                error_msg: l.error_msg.clone(),
                level,
                loc: l.loc,
                file_id: program.file_id,
                msg: l.msg.clone(),
            },
        );
        i += 1;
    }
    if reports.len() == 0 {
        Option::None
    } else {
        Option::Some(reports)
    }
}

/// An `upsert` lands at the key's first index: an update there when the key
/// exists, an append when it does not.
pub proof fn lemma_upsert_at_index<T>(s: Seq<(Seq<char>, T)>, k: Seq<char>, v: T)
    ensures
        find_assoc(s, k) is Some ==> upsert(s, k, v) == s.update(find_assoc_index(s, k), (k, v)),
        find_assoc(s, k) is None ==> upsert(s, k, v) == s.push((k, v)),
    decreases s.len(),
{
    lemma_find_assoc_index(s, k);
    if s.len() == 0 {
        assert(upsert(s, k, v) =~= s.push((k, v)));
    } else if s[0].0 == k {
        assert(upsert(s, k, v) =~= s.update(0, (k, v)));
    } else {
        let tail = s.subrange(1, s.len() as int);
        lemma_upsert_at_index(tail, k, v);
        lemma_find_assoc_index(tail, k);
        if find_assoc(s, k) is Some {
            assert(upsert(s, k, v) =~= s.update(find_assoc_index(s, k), (k, v)));
        } else {
            assert(upsert(s, k, v) =~= s.push((k, v)));
        }
    }
}

} // verus!
