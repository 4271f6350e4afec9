//! The syntax tree of a Ved program, and its abstract view.

use vstd::prelude::*;

verus! {

#[derive(Debug, Clone)]
pub enum Statement {
    DomainDecl(DomainDecl),
    SystemDecl(SystemDecl),
}

#[derive(Debug, Clone)]
pub struct DomainDecl {
    pub name: String,
    pub state: Vec<StateField>,
    pub goals: Vec<GoalDecl>,
    pub transitions: Vec<TransitionDecl>,
}

#[derive(Debug, Clone)]
pub struct StateField {
    pub name: String,
    /// The declared type, e.g. "int".
    pub typ: String,
}

#[derive(Debug, Clone)]
pub struct GoalDecl {
    pub name: String,
    pub target: Expr,
}

#[derive(Debug, Clone)]
pub struct TransitionDecl {
    pub name: String,
    /// The statements of the transition's step block.
    pub slice_step: Vec<Expr>,
}

#[derive(Debug, Clone)]
pub struct SystemDecl {
    pub name: String,
    pub start_domains: Vec<StartDomain>,
}

#[derive(Debug, Clone)]
pub struct StartDomain {
    pub name: String,
    /// Initialisation statements.
    pub init_state: Vec<Expr>,
}

#[derive(Debug)]
pub enum Expr {
    BinaryOp { left: Box<Expr>, op: String, right: Box<Expr> },
    Assignment { target: String, value: Box<Expr> },
    Ident(String),
    IntLiteral(i64),
    StringLiteral(String),
    Send { target: String, message: String },
    SendHigh { target: String, message: String },
    If { condition: Box<Expr>, consequence: Vec<Expr> },
}

#[derive(Debug, Clone)]
pub struct Ast {
    pub statements: Vec<Statement>,
}

/// An expression with its strings taken as character sequences.
pub enum ExprView {
    BinaryOp { left: Box<ExprView>, op: Seq<char>, right: Box<ExprView> },
    Assignment { target: Seq<char>, value: Box<ExprView> },
    Ident(Seq<char>),
    IntLiteral(i64),
    StringLiteral(Seq<char>),
    Send { target: Seq<char>, message: Seq<char> },
    SendHigh { target: Seq<char>, message: Seq<char> },
    If { condition: Box<ExprView>, consequence: Seq<ExprView> },
}

pub open spec fn expr_view(e: Expr) -> ExprView
    decreases e, 0nat,
{
    match e {
        Expr::BinaryOp { left, op, right } => ExprView::BinaryOp {
            left: Box::new(expr_view(*left)),
            op: op@,
            right: Box::new(expr_view(*right)),
        },
        Expr::Assignment { target, value } => ExprView::Assignment { target: target@, value: Box::new(expr_view(*value)) },
        Expr::Ident(s) => ExprView::Ident(s@),
        Expr::IntLiteral(v) => ExprView::IntLiteral(v),
        Expr::StringLiteral(s) => ExprView::StringLiteral(s@),
        Expr::Send { target, message } => ExprView::Send { target: target@, message: message@ },
        Expr::SendHigh { target, message } => ExprView::SendHigh { target: target@, message: message@ },
        Expr::If { condition, consequence } => ExprView::If {
            condition: Box::new(expr_view(*condition)),
            consequence: exprs_view_seq(consequence@),
        },
    }
}

/// The views of a sequence of expressions.
pub open spec fn exprs_view_seq(s: Seq<Expr>) -> Seq<ExprView>
    decreases s, s.len(),
{
    if s.len() == 0 {
        Seq::empty()
    } else {
        exprs_view_seq(s.subrange(0, s.len() - 1)).push(expr_view(s[s.len() - 1]))
    }
}

impl View for Expr {
    type V = ExprView;

    open spec fn view(&self) -> ExprView {
        expr_view(*self)
    }
}

/// A state field as (name, type).
pub type FieldView = (Seq<char>, Seq<char>);

/// A goal as (name, target).
pub type GoalView = (Seq<char>, ExprView);

/// A transition as (name, statements); a start block as (domain, statements).
pub type BlockView = (Seq<char>, Seq<ExprView>);

pub struct DomainView {
    pub name: Seq<char>,
    pub state: Seq<FieldView>,
    pub goals: Seq<GoalView>,
    pub transitions: Seq<BlockView>,
}

pub struct SystemView {
    pub name: Seq<char>,
    pub start_domains: Seq<BlockView>,
}

pub enum StatementView {
    DomainDecl(DomainView),
    SystemDecl(SystemView),
}

pub open spec fn fields_view(s: Seq<StateField>) -> Seq<FieldView> {
    s.map_values(|f: StateField| (f.name@, f.typ@))
}

pub open spec fn goals_view(s: Seq<GoalDecl>) -> Seq<GoalView> {
    s.map_values(|g: GoalDecl| (g.name@, g.target@))
}

pub open spec fn transitions_view(s: Seq<TransitionDecl>) -> Seq<BlockView> {
    s.map_values(|t: TransitionDecl| (t.name@, exprs_view_seq(t.slice_step@)))
}

pub open spec fn starts_view(s: Seq<StartDomain>) -> Seq<BlockView> {
    s.map_values(|t: StartDomain| (t.name@, exprs_view_seq(t.init_state@)))
}

impl View for DomainDecl {
    type V = DomainView;

    open spec fn view(&self) -> DomainView {
        DomainView {
            name: self.name@,
            state: fields_view(self.state@),
            goals: goals_view(self.goals@),
            transitions: transitions_view(self.transitions@),
        }
    }
}

impl View for SystemDecl {
    type V = SystemView;

    open spec fn view(&self) -> SystemView {
        SystemView { name: self.name@, start_domains: starts_view(self.start_domains@) }
    }
}

impl View for Statement {
    type V = StatementView;

    open spec fn view(&self) -> StatementView {
        match self {
            Statement::DomainDecl(d) => StatementView::DomainDecl(d@),
            Statement::SystemDecl(s) => StatementView::SystemDecl(s@),
        }
    }
}

pub open spec fn statements_view(s: Seq<Statement>) -> Seq<StatementView> {
    s.map_values(|st: Statement| st@)
}

impl View for Ast {
    type V = Seq<StatementView>;

    open spec fn view(&self) -> Seq<StatementView> {
        statements_view(self.statements@)
    }
}

impl Expr {
    /// A deep copy of the expression.
    pub fn duplicate(&self) -> (r: Expr)
        ensures
            r@ == self@,
        decreases self,
    {
        match self {
            Expr::BinaryOp { left, op, right } => Expr::BinaryOp {
                left: Box::new(left.duplicate()),
                op: op.clone(),
                right: Box::new(right.duplicate()),
            },
            Expr::Assignment { target, value } => Expr::Assignment { target: target.clone(), value: Box::new(value.duplicate()) },
            Expr::Ident(s) => Expr::Ident(s.clone()),
            Expr::IntLiteral(v) => Expr::IntLiteral(*v),
            Expr::StringLiteral(s) => Expr::StringLiteral(s.clone()),
            Expr::Send { target, message } => Expr::Send { target: target.clone(), message: message.clone() },
            Expr::SendHigh { target, message } => Expr::SendHigh { target: target.clone(), message: message.clone() },
            Expr::If { condition, consequence } => {
                let mut out: Vec<Expr> = Vec::new();
                let mut i: usize = 0;
                proof {
                    assert(decreases_to!(*self => *consequence));
                }
                while i < consequence.len()
                    invariant
                        i <= consequence.len(),
                        decreases_to!(*self => *consequence),
                        exprs_view_seq(out@) == exprs_view_seq(consequence@.subrange(0, i as int)),
                    decreases consequence.len() - i,
                {
                    proof {
                        assert(decreases_to!(*consequence => consequence@));
                        assert(decreases_to!(consequence@ => consequence@[i as int]));
                    }
                    let e = consequence[i].duplicate();
                    proof {
                        lemma_exprs_view_push(out@, e);
                        lemma_exprs_view_push(consequence@.subrange(0, i as int), consequence@[i as int]);
                        assert(consequence@.subrange(0, i as int).push(consequence@[i as int]) =~= consequence@.subrange(0, i + 1));
                    }
                    out.push(e);
                    i = i + 1;
                }
                assert(consequence@.subrange(0, i as int) =~= consequence@);
                Expr::If { condition: Box::new(condition.duplicate()), consequence: out }
            },
        }
    }
}

impl Clone for Expr {
    fn clone(&self) -> (r: Expr)
        ensures
            r@ == self@,
    {
        self.duplicate()
    }
}

/// Pushing onto a sequence of expressions pushes its view.
pub proof fn lemma_exprs_view_push(s: Seq<Expr>, e: Expr)
    ensures
        exprs_view_seq(s.push(e)) == exprs_view_seq(s).push(e@),
{
    assert(s.push(e).subrange(0, s.len() as int) =~= s);
}

/// The view of a sequence of expressions has the same length and holds
/// the view of each element.
pub proof fn lemma_exprs_view_index(s: Seq<Expr>)
    ensures
        exprs_view_seq(s).len() == s.len(),
        forall|i: int| 0 <= i < s.len() ==> #[trigger] exprs_view_seq(s)[i] == s[i]@,
    decreases s.len(),
{
    if s.len() > 0 {
        let t = s.subrange(0, s.len() - 1);
        lemma_exprs_view_index(t);
        assert forall|i: int| 0 <= i < s.len() implies #[trigger] exprs_view_seq(s)[i] == s[i]@ by {
            if i < s.len() - 1 {
                assert(t[i] == s[i]);
            }
        }
    }
}

} // verus!
