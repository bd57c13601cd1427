//! The statement trees the analyses consume: metadata, expressions,
//! statements, templates and whole programs, together with their mathematical
//! views and verified deep clones.
//!
//! Numeric literals carry `num_bigint::BigInt` values; at the view level a
//! literal is the mathematical integer `crate::numeric::big_value` gives it.

use num_bigint::BigInt;
use vstd::prelude::*;
use vstd::string::StrSliceExecFns;

use crate::numeric::big_clone;
use crate::numeric::big_value;

verus! {

/// Identity token and source span of one statement or expression occurrence.
pub struct Meta {
    pub elem_id: usize,
    pub start: usize,
    pub end: usize,
    /// For a component declaration: the template it was resolved to by the
    /// external name-resolution pass.
    pub component_inference: Option<String>,
}

pub ghost struct MetaV {
    pub elem_id: int,
    pub start: int,
    pub end: int,
    pub component_inference: Option<Seq<char>>,
}

impl View for Meta {
    type V = MetaV;

    open spec fn view(&self) -> MetaV {
        MetaV {
            elem_id: self.elem_id as int,
            start: self.start as int,
            end: self.end as int,
            component_inference: match self.component_inference {
                Option::Some(s) => Option::Some(s@),
                Option::None => Option::None,
            },
        }
    }
}

impl Clone for Meta {
    fn clone(&self) -> (r: Self)
        ensures
            r@ == self@,
    {
        Meta {
            elem_id: self.elem_id,
            start: self.start,
            end: self.end,
            component_inference: match &self.component_inference {
                Option::Some(s) => Option::Some(s.clone()),
                Option::None => Option::None,
            },
        }
    }
}

/// The kind of signal a declaration introduces.
#[derive(Clone, Copy, PartialEq, Eq, Structural, Debug)]
pub enum SignalType {
    Input,
    Intermediate,
    Output,
}

/// The declared kind of a name.
#[derive(Clone, Copy, PartialEq, Eq, Structural, Debug)]
pub enum VariableType {
    Var,
    Signal(SignalType),
    Component,
}

/// The operator of a substitution statement.
#[derive(Clone, Copy, PartialEq, Eq, Structural, Debug)]
pub enum AssignOp {
    AssignVar,
    AssignSignal,
    AssignConstraintSignal,
}

/// Binary operators of the expression language that the analyses look at.
#[derive(Clone, Copy, PartialEq, Eq, Structural, Debug)]
pub enum ExpressionInfixOpcode {
    Mul,
    Add,
    Sub,
    Lesser,
    LesserEq,
    Greater,
}

pub enum Expression {
    Number(Meta, BigInt),
    Variable { meta: Meta, name: String, access: Vec<Access> },
    InfixOp {
        meta: Meta,
        lhe: Box<Expression>,
        infix_op: ExpressionInfixOpcode,
        rhe: Box<Expression>,
    },
}

pub enum Access {
    ComponentAccess(String),
    ArrayAccess(Expression),
}

pub ghost enum ExprV {
    Number(MetaV, int),
    Variable { meta: MetaV, name: Seq<char>, access: Seq<AccessV> },
    InfixOp {
        meta: MetaV,
        lhe: Box<ExprV>,
        infix_op: ExpressionInfixOpcode,
        rhe: Box<ExprV>,
    },
}

pub ghost enum AccessV {
    ComponentAccess(Seq<char>),
    ArrayAccess(ExprV),
}

pub open spec fn expr_view(e: Expression) -> ExprV
    decreases e,
{
    match e {
        Expression::Number(m, b) => ExprV::Number(m@, big_value(b)),
        Expression::Variable { meta, name, access } => ExprV::Variable {
            meta: meta@,
            name: name@,
            access: accesses_view(access@),
        },
        Expression::InfixOp { meta, lhe, infix_op, rhe } => ExprV::InfixOp {
            meta: meta@,
            lhe: Box::new(expr_view(*lhe)),
            infix_op,
            rhe: Box::new(expr_view(*rhe)),
        },
    }
}

pub open spec fn accesses_view(s: Seq<Access>) -> Seq<AccessV>
    decreases s,
{
    if s.len() == 0 {
        Seq::empty()
    } else {
        accesses_view(s.subrange(0, s.len() - 1)).push(access_view(s[s.len() - 1]))
    }
}

pub open spec fn access_view(a: Access) -> AccessV
    decreases a,
{
    match a {
        Access::ComponentAccess(s) => AccessV::ComponentAccess(s@),
        Access::ArrayAccess(e) => AccessV::ArrayAccess(expr_view(e)),
    }
}

pub open spec fn exprs_view(s: Seq<Expression>) -> Seq<ExprV>
    decreases s,
{
    if s.len() == 0 {
        Seq::empty()
    } else {
        exprs_view(s.subrange(0, s.len() - 1)).push(expr_view(s[s.len() - 1]))
    }
}

impl View for Expression {
    type V = ExprV;

    open spec fn view(&self) -> ExprV {
        expr_view(*self)
    }
}

impl View for Access {
    type V = AccessV;

    open spec fn view(&self) -> AccessV {
        access_view(*self)
    }
}

pub enum Statement {
    Declaration {
        meta: Meta,
        xtype: VariableType,
        name: String,
        dimensions: Vec<Expression>,
        is_constant: bool,
    },
    Substitution {
        meta: Meta,
        var: String,
        access: Vec<Access>,
        op: AssignOp,
        rhe: Expression,
    },
    Block { meta: Meta, stmts: Vec<Statement> },
    InitializationBlock { meta: Meta, initializations: Vec<Statement> },
    IfThenElse {
        meta: Meta,
        cond: Expression,
        if_case: Box<Statement>,
        else_case: Option<Box<Statement>>,
    },
    While { meta: Meta, cond: Expression, stmt: Box<Statement> },
    Return { meta: Meta, value: Expression },
    LogCall { meta: Meta },
    Assert { meta: Meta, arg: Expression },
    ConstraintEquality { meta: Meta, lhe: Expression, rhe: Expression },
    MultSubstitution { meta: Meta, lhe: Expression, op: AssignOp, rhe: Expression },
    UnderscoreSubstitution { meta: Meta, op: AssignOp, rhe: Expression },
}

pub ghost enum StmtV {
    Declaration {
        meta: MetaV,
        xtype: VariableType,
        name: Seq<char>,
        dimensions: Seq<ExprV>,
        is_constant: bool,
    },
    Substitution {
        meta: MetaV,
        var: Seq<char>,
        access: Seq<AccessV>,
        op: AssignOp,
        rhe: ExprV,
    },
    Block { meta: MetaV, stmts: Seq<StmtV> },
    InitializationBlock { meta: MetaV, initializations: Seq<StmtV> },
    IfThenElse {
        meta: MetaV,
        cond: ExprV,
        if_case: Box<StmtV>,
        else_case: Option<Box<StmtV>>,
    },
    While { meta: MetaV, cond: ExprV, stmt: Box<StmtV> },
    Return { meta: MetaV, value: ExprV },
    LogCall { meta: MetaV },
    Assert { meta: MetaV, arg: ExprV },
    ConstraintEquality { meta: MetaV, lhe: ExprV, rhe: ExprV },
    MultSubstitution { meta: MetaV, lhe: ExprV, op: AssignOp, rhe: ExprV },
    UnderscoreSubstitution { meta: MetaV, op: AssignOp, rhe: ExprV },
}

pub open spec fn stmt_view(s: Statement) -> StmtV
    decreases s,
{
    match s {
        Statement::Declaration { meta, xtype, name, dimensions, is_constant } => {
            StmtV::Declaration {
                meta: meta@,
                xtype,
                name: name@,
                dimensions: exprs_view(dimensions@),
                is_constant,
            }
        },
        Statement::Substitution { meta, var, access, op, rhe } => StmtV::Substitution {
            meta: meta@,
            var: var@,
            access: accesses_view(access@),
            op,
            rhe: expr_view(rhe),
        },
        Statement::Block { meta, stmts } => StmtV::Block { meta: meta@, stmts: stmts_view(stmts@) },
        Statement::InitializationBlock { meta, initializations } => StmtV::InitializationBlock {
            meta: meta@,
            initializations: stmts_view(initializations@),
        },
        Statement::IfThenElse { meta, cond, if_case, else_case } => StmtV::IfThenElse {
            meta: meta@,
            cond: expr_view(cond),
            if_case: Box::new(stmt_view(*if_case)),
            else_case: match else_case {
                Option::Some(b) => Option::Some(Box::new(stmt_view(*b))),
                Option::None => Option::None,
            },
        },
        Statement::While { meta, cond, stmt } => StmtV::While {
            meta: meta@,
            cond: expr_view(cond),
            stmt: Box::new(stmt_view(*stmt)),
        },
        Statement::Return { meta, value } => StmtV::Return { meta: meta@, value: expr_view(value) },
        Statement::LogCall { meta } => StmtV::LogCall { meta: meta@ },
        Statement::Assert { meta, arg } => StmtV::Assert { meta: meta@, arg: expr_view(arg) },
        Statement::ConstraintEquality { meta, lhe, rhe } => StmtV::ConstraintEquality {
            meta: meta@,
            lhe: expr_view(lhe),
            rhe: expr_view(rhe),
        },
        Statement::MultSubstitution { meta, lhe, op, rhe } => StmtV::MultSubstitution {
            meta: meta@,
            lhe: expr_view(lhe),
            op,
            rhe: expr_view(rhe),
        },
        Statement::UnderscoreSubstitution { meta, op, rhe } => StmtV::UnderscoreSubstitution {
            meta: meta@,
            op,
            rhe: expr_view(rhe),
        },
    }
}

pub open spec fn stmts_view(s: Seq<Statement>) -> Seq<StmtV>
    decreases s,
{
    if s.len() == 0 {
        Seq::empty()
    } else {
        stmts_view(s.subrange(0, s.len() - 1)).push(stmt_view(s[s.len() - 1]))
    }
}

impl View for Statement {
    type V = StmtV;

    open spec fn view(&self) -> StmtV {
        stmt_view(*self)
    }
}

/// `stmts_view` maps `stmt_view` over the sequence, element by element.
pub proof fn lemma_stmts_view(s: Seq<Statement>)
    ensures
        stmts_view(s).len() == s.len(),
        forall|i: int| 0 <= i < s.len() ==> stmts_view(s)[i] == stmt_view(s[i]),
    decreases s.len(),
{
    if s.len() > 0 {
        lemma_stmts_view(s.subrange(0, s.len() - 1));
    }
}

/// `accesses_view` maps `access_view` over the sequence, element by element.
pub proof fn lemma_accesses_view(s: Seq<Access>)
    ensures
        accesses_view(s).len() == s.len(),
        forall|i: int| 0 <= i < s.len() ==> accesses_view(s)[i] == access_view(s[i]),
    decreases s.len(),
{
    if s.len() > 0 {
        lemma_accesses_view(s.subrange(0, s.len() - 1));
    }
}

/// `exprs_view` maps `expr_view` over the sequence, element by element.
pub proof fn lemma_exprs_view(s: Seq<Expression>)
    ensures
        exprs_view(s).len() == s.len(),
        forall|i: int| 0 <= i < s.len() ==> exprs_view(s)[i] == expr_view(s[i]),
    decreases s.len(),
{
    if s.len() > 0 {
        lemma_exprs_view(s.subrange(0, s.len() - 1));
    }
}

/// The metadata of an expression occurrence.
pub open spec fn spec_expr_meta(e: ExprV) -> MetaV {
    match e {
        ExprV::Number(m, _) => m,
        ExprV::Variable { meta, .. } => meta,
        ExprV::InfixOp { meta, .. } => meta,
    }
}

impl Expression {
    pub fn get_meta(&self) -> (r: &Meta)
        ensures
            r@ == spec_expr_meta(self@),
    {
        match self {
            Expression::Number(m, _) => m,
            Expression::Variable { meta, .. } => meta,
            Expression::InfixOp { meta, .. } => meta,
        }
    }
}

/// The metadata of a statement occurrence.
pub open spec fn spec_stmt_meta(s: StmtV) -> MetaV {
    match s {
        StmtV::Declaration { meta, .. } => meta,
        StmtV::Substitution { meta, .. } => meta,
        StmtV::Block { meta, .. } => meta,
        StmtV::InitializationBlock { meta, .. } => meta,
        StmtV::IfThenElse { meta, .. } => meta,
        StmtV::While { meta, .. } => meta,
        StmtV::Return { meta, .. } => meta,
        StmtV::LogCall { meta } => meta,
        StmtV::Assert { meta, .. } => meta,
        StmtV::ConstraintEquality { meta, .. } => meta,
        StmtV::MultSubstitution { meta, .. } => meta,
        StmtV::UnderscoreSubstitution { meta, .. } => meta,
    }
}

impl Statement {
    pub fn get_meta(&self) -> (r: &Meta)
        ensures
            r@ == spec_stmt_meta(self@),
    {
        match self {
            Statement::Declaration { meta, .. } => meta,
            Statement::Substitution { meta, .. } => meta,
            Statement::Block { meta, .. } => meta,
            Statement::InitializationBlock { meta, .. } => meta,
            Statement::IfThenElse { meta, .. } => meta,
            Statement::While { meta, .. } => meta,
            Statement::Return { meta, .. } => meta,
            Statement::LogCall { meta } => meta,
            Statement::Assert { meta, .. } => meta,
            Statement::ConstraintEquality { meta, .. } => meta,
            Statement::MultSubstitution { meta, .. } => meta,
            Statement::UnderscoreSubstitution { meta, .. } => meta,
        }
    }
}

#[verifier::loop_isolation(false)]
pub fn clone_expr(e: &Expression) -> (r: Expression)
    ensures
        r@ == e@,
    decreases *e,
{
    match e {
        Expression::Number(m, b) => Expression::Number(m.clone(), big_clone(b)),
        Expression::Variable { meta, name, access } => {
            let mut acc: Vec<Access> = Vec::new();
            let mut i: usize = 0;
            while i < access.len()
                invariant
                    i <= access.len(),
                    acc@.len() == i,
                    forall|j: int| 0 <= j < i ==> acc@[j]@ == access@[j]@,
                decreases access.len() - i,
            {
                proof {
                    assert(decreases_to!(*e => (*e)->Variable_access@[i as int]));
                    assert((*e)->Variable_access == *access);
                }
                acc.push(clone_access(&access[i]));
                i += 1;
            }
            proof {
                lemma_accesses_view(acc@);
                lemma_accesses_view(access@);
                assert(accesses_view(acc@) =~= accesses_view(access@));
            }
            Expression::Variable { meta: meta.clone(), name: name.clone(), access: acc }
        },
        Expression::InfixOp { meta, lhe, infix_op, rhe } => Expression::InfixOp {
            meta: meta.clone(),
            lhe: Box::new(clone_expr(&*lhe)),
            infix_op: *infix_op,
            rhe: Box::new(clone_expr(&*rhe)),
        },
    }
}

pub fn clone_access(a: &Access) -> (r: Access)
    ensures
        r@ == a@,
    decreases *a,
{
    match a {
        Access::ComponentAccess(s) => Access::ComponentAccess(s.clone()),
        Access::ArrayAccess(e) => Access::ArrayAccess(clone_expr(e)),
    }
}

#[verifier::loop_isolation(false)]
pub fn clone_accesses(v: &Vec<Access>) -> (r: Vec<Access>)
    ensures
        accesses_view(r@) == accesses_view(v@),
{
    let mut acc: Vec<Access> = Vec::new();
    let mut i: usize = 0;
    while i < v.len()
        invariant
            i <= v.len(),
            acc@.len() == i,
            forall|j: int| 0 <= j < i ==> acc@[j]@ == v@[j]@,
        decreases v.len() - i,
    {
        acc.push(clone_access(&v[i]));
        i += 1;
    }
    proof {
        lemma_accesses_view(acc@);
        lemma_accesses_view(v@);
        assert(accesses_view(acc@) =~= accesses_view(v@));
    }
    acc
}

#[verifier::loop_isolation(false)]
pub fn clone_exprs(v: &Vec<Expression>) -> (r: Vec<Expression>)
    ensures
        exprs_view(r@) == exprs_view(v@),
{
    let mut acc: Vec<Expression> = Vec::new();
    let mut i: usize = 0;
    while i < v.len()
        invariant
            i <= v.len(),
            acc@.len() == i,
            forall|j: int| 0 <= j < i ==> acc@[j]@ == v@[j]@,
        decreases v.len() - i,
    {
        acc.push(clone_expr(&v[i]));
        i += 1;
    }
    proof {
        lemma_exprs_view(acc@);
        lemma_exprs_view(v@);
        assert(exprs_view(acc@) =~= exprs_view(v@));
    }
    acc
}

#[verifier::loop_isolation(false)]
pub fn clone_stmt(s: &Statement) -> (r: Statement)
    ensures
        r@ == s@,
    decreases *s,
{
    match s {
        Statement::Declaration { meta, xtype, name, dimensions, is_constant } => {
            Statement::Declaration {
                meta: meta.clone(),
                xtype: *xtype,
                name: name.clone(),
                dimensions: clone_exprs(dimensions),
                is_constant: *is_constant,
            }
        },
        Statement::Substitution { meta, var, access, op, rhe } => Statement::Substitution {
            meta: meta.clone(),
            var: var.clone(),
            access: clone_accesses(access),
            op: *op,
            rhe: clone_expr(rhe),
        },
        Statement::Block { meta, stmts } => {
            let mut ss: Vec<Statement> = Vec::new();
            let mut i: usize = 0;
            while i < stmts.len()
                invariant
                    i <= stmts.len(),
                    ss@.len() == i,
                    forall|j: int| 0 <= j < i ==> ss@[j]@ == stmts@[j]@,
                decreases stmts.len() - i,
            {
                proof {
                    assert(decreases_to!(*s => (*s)->Block_stmts@[i as int]));
                    assert((*s)->Block_stmts == *stmts);
                }
                ss.push(clone_stmt(&stmts[i]));
                i += 1;
            }
            proof {
                lemma_stmts_view(ss@);
                lemma_stmts_view(stmts@);
                assert(stmts_view(ss@) =~= stmts_view(stmts@));
            }
            Statement::Block { meta: meta.clone(), stmts: ss }
        },
        Statement::InitializationBlock { meta, initializations } => {
            let mut ss: Vec<Statement> = Vec::new();
            let mut i: usize = 0;
            while i < initializations.len()
                invariant
                    i <= initializations.len(),
                    ss@.len() == i,
                    forall|j: int| 0 <= j < i ==> ss@[j]@ == initializations@[j]@,
                decreases initializations.len() - i,
            {
                proof {
                    assert(decreases_to!(
                        *s => (*s)->InitializationBlock_initializations@[i as int]));
                    assert((*s)->InitializationBlock_initializations == *initializations);
                }
                ss.push(clone_stmt(&initializations[i]));
                i += 1;
            }
            proof {
                lemma_stmts_view(ss@);
                lemma_stmts_view(initializations@);
                assert(stmts_view(ss@) =~= stmts_view(initializations@));
            }
            Statement::InitializationBlock { meta: meta.clone(), initializations: ss }
        },
        Statement::IfThenElse { meta, cond, if_case, else_case } => Statement::IfThenElse {
            meta: meta.clone(),
            cond: clone_expr(cond),
            if_case: Box::new(clone_stmt(&*if_case)),
            else_case: match else_case {
                Option::Some(b) => Option::Some(Box::new(clone_stmt(&*b))),
                Option::None => Option::None,
            },
        },
        Statement::While { meta, cond, stmt } => Statement::While {
            meta: meta.clone(),
            cond: clone_expr(cond),
            stmt: Box::new(clone_stmt(&*stmt)),
        },
        Statement::Return { meta, value } => Statement::Return {
            meta: meta.clone(),
            value: clone_expr(value),
        },
        Statement::LogCall { meta } => Statement::LogCall { meta: meta.clone() },
        Statement::Assert { meta, arg } => Statement::Assert {
            meta: meta.clone(),
            arg: clone_expr(arg),
        },
        Statement::ConstraintEquality { meta, lhe, rhe } => Statement::ConstraintEquality {
            meta: meta.clone(),
            lhe: clone_expr(lhe),
            rhe: clone_expr(rhe),
        },
        Statement::MultSubstitution { meta, lhe, op, rhe } => Statement::MultSubstitution {
            meta: meta.clone(),
            lhe: clone_expr(lhe),
            op: *op,
            rhe: clone_expr(rhe),
        },
        Statement::UnderscoreSubstitution { meta, op, rhe } => Statement::UnderscoreSubstitution {
            meta: meta.clone(),
            op: *op,
            rhe: clone_expr(rhe),
        },
    }
}

/// One template of the program: its body and its declared input and output
/// signal names, in declaration order.
pub struct Template {
    pub name: String,
    pub body: Statement,
    pub inputs: Vec<String>,
    pub outputs: Vec<String>,
}

pub ghost struct TemplateV {
    pub name: Seq<char>,
    pub body: StmtV,
    pub inputs: Seq<Seq<char>>,
    pub outputs: Seq<Seq<char>>,
}

impl View for Template {
    type V = TemplateV;

    open spec fn view(&self) -> TemplateV {
        TemplateV {
            name: self.name@,
            body: self.body@,
            inputs: self.inputs@.map_values(|s: String| s@),
            outputs: self.outputs@.map_values(|s: String| s@),
        }
    }
}

/// The program under analysis: its templates and the source text their spans
/// index into (spans are character offsets).
pub struct Program {
    pub file_id: usize,
    pub source: String,
    pub templates: Vec<Template>,
}

pub ghost struct ProgramV {
    pub file_id: int,
    pub source: Seq<char>,
    pub templates: Seq<TemplateV>,
}

impl View for Program {
    type V = ProgramV;

    open spec fn view(&self) -> ProgramV {
        ProgramV {
            file_id: self.file_id as int,
            source: self.source@,
            templates: self.templates@.map_values(|t: Template| t@),
        }
    }
}

/// The first template of `ts` named `name`, if any.
pub open spec fn spec_find_template(ts: Seq<TemplateV>, name: Seq<char>) -> Option<TemplateV>
    decreases ts.len(),
{
    if ts.len() == 0 {
        Option::None
    } else if ts[0].name == name {
        Option::Some(ts[0])
    } else {
        spec_find_template(ts.subrange(1, ts.len() as int), name)
    }
}

impl Program {
    /// Finds the template named `name`, front to back.
    #[verifier::loop_isolation(false)]
    pub fn get_template(&self, name: &str) -> (r: Option<&Template>)
        ensures
            match r {
                Option::Some(t) => spec_find_template(self@.templates, name@)
                    == Option::Some(t@),
                Option::None => spec_find_template(self@.templates, name@) is None,
            },
    {
        let mut i: usize = 0;
        proof {
            assert(self@.templates.subrange(0, self@.templates.len() as int) =~= self@.templates);
        }
        while i < self.templates.len()
            invariant
                i <= self.templates.len(),
                spec_find_template(self@.templates, name@) == spec_find_template(
                    self@.templates.subrange(i as int, self@.templates.len() as int),
                    name@,
                ),
            decreases self.templates.len() - i,
        {
            proof {
                let tail = self@.templates.subrange(i as int, self@.templates.len() as int);
                assert(tail[0] == self@.templates[i as int]);
                assert(tail.subrange(1, tail.len() as int) =~= self@.templates.subrange(
                    i as int + 1,
                    self@.templates.len() as int,
                ));
            }
            if crate::text::str_eq(self.templates[i].name.as_str(), name) {
                return Option::Some(&self.templates[i]);
            }
            i += 1;
        }
        proof {
            assert(self@.templates.subrange(
                self@.templates.len() as int,
                self@.templates.len() as int,
            ) =~= Seq::<TemplateV>::empty());
        }
        Option::None
    }

    /// A verified deep copy of the whole program.
    #[verifier::loop_isolation(false)]
    pub fn duplicate(&self) -> (r: Program)
        ensures
            r@ == self@,
    {
        let mut templates: Vec<Template> = Vec::new();
        let mut i: usize = 0;
        while i < self.templates.len()
            invariant
                i <= self.templates@.len(),
                templates@.len() == i,
                forall|j: int| 0 <= j < i ==> (#[trigger] templates@[j])@ == self.templates@[j]@,
            decreases self.templates@.len() - i,
        {
            let t = &self.templates[i];
            let mut inputs: Vec<String> = Vec::new();
            let mut k: usize = 0;
            while k < t.inputs.len()
                invariant
                    k <= t.inputs@.len(),
                    inputs@.len() == k,
                    forall|j: int| 0 <= j < k ==> (#[trigger] inputs@[j])@ == t.inputs@[j]@,
                decreases t.inputs@.len() - k,
            {
                inputs.push(t.inputs[k].clone());
                k += 1;
            }
            let mut outputs: Vec<String> = Vec::new();
            let mut k: usize = 0;
            while k < t.outputs.len()
                invariant
                    k <= t.outputs@.len(),
                    outputs@.len() == k,
                    forall|j: int| 0 <= j < k ==> (#[trigger] outputs@[j])@ == t.outputs@[j]@,
                decreases t.outputs@.len() - k,
            {
                outputs.push(t.outputs[k].clone());
                k += 1;
            }
            let copy = Template {
                name: t.name.clone(),
                body: clone_stmt(&t.body),
                inputs,
                outputs,
            };
            proof {
                assert(copy@.inputs =~= t@.inputs);
                assert(copy@.outputs =~= t@.outputs);
            }
            templates.push(copy);
            i += 1;
        }
        let r = Program { file_id: self.file_id, source: self.source.clone(), templates };
        proof {
            assert(r@.templates =~= self@.templates);
        }
        r
    }

    /// The literal source text in the span `[start, end)`.
    pub fn source_slice(&self, start: usize, end: usize) -> (r: String)
        requires
            start <= end <= self@.source.len(),
        ensures
            r@ == self@.source.subrange(start as int, end as int),
    {
        let s = self.source.as_str().substring_char(start, end);
        s.to_owned()
    }
}

} // verus!
