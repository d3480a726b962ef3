//! The tree of an image's text, and its mathematical view.

use vstd::prelude::*;

verus! {

#[derive(Debug, Clone, Copy, PartialEq, Eq, Structural)]
pub enum BinOp {
    Add,
    Sub,
    Mul,
    Div,
    Mod,
    Pow,
    Eq,
    Ne,
    Lt,
    Le,
    Gt,
    Ge,
    AndBit,
    OrBit,
    AndLogic,
    OrLogic,
    Shl,
    Shr,
}

#[derive(Debug, Clone, Copy, PartialEq, Eq, Structural)]
pub enum UnOp {
    Neg,
    Not,
    /// `~x`: the value at the start of the step.
    Old,
}

/// An expression. Numbers and handles keep the text they were written with.
#[derive(Debug, PartialEq)]
pub enum Expr {
    Number(String),
    Str(String),
    Handle(String),
    /// A variable or a constant; the name as written.
    Var(String),
    Unary(UnOp, Box<Expr>),
    Binary(BinOp, Box<Expr>, Box<Expr>),
    Call(String, Vec<Expr>),
}

#[derive(Debug, Clone, PartialEq)]
pub struct Declaration {
    pub var_type: String,
    pub local: bool,
    /// `parameter`: an argument of an image function.
    pub parameter: bool,
    pub names: Vec<String>,
}

#[derive(Debug, PartialEq)]
pub struct CaseArm {
    pub condition: Expr,
    pub body: Vec<Stmt>,
}

#[derive(Debug, PartialEq)]
pub enum Stmt {
    /// The line on which the statements after it start.
    At(u32),
    Declare(Declaration),
    /// `x := expression`; a chain `s := r := ...` becomes one assignment per
    /// target, each with the same right-hand side.
    Assign { target: String, value: Expr },
    /// `x ::= expression`: an assignment made at the end of the step.
    AssignDeferred { target: String, value: Expr },
    Expr(Expr),
    If { condition: Expr, then_body: Vec<Stmt>, else_body: Vec<Stmt> },
    While { condition: Expr, body: Vec<Stmt> },
    DoUntil { body: Vec<Stmt>, condition: Expr },
    Switch { arms: Vec<CaseArm>, default: Vec<Stmt> },
    Break,
    Return(Option<Expr>),
    /// An equation `expression = expression`, solved by the environment
    /// rather than in order.
    Equation { left: Expr, right: Expr },
    /// `? x, y`: the unknowns of the equations above.
    Unknowns(Vec<String>),
}

/// The parsed text of an image.
#[derive(Debug, PartialEq)]
pub struct Model {
    pub body: Vec<Stmt>,
    /// The declarations of the whole text, in the order they stand.
    pub declarations: Vec<Declaration>,
    /// The text holds `function`: the image is a function.
    pub is_function: bool,
}

pub enum ExprView {
    Number(Seq<char>),
    Str(Seq<char>),
    Handle(Seq<char>),
    Var(Seq<char>),
    Unary(UnOp, Box<ExprView>),
    Binary(BinOp, Box<ExprView>, Box<ExprView>),
    Call(Seq<char>, Seq<ExprView>),
}

pub struct DeclView {
    pub var_type: Seq<char>,
    pub local: bool,
    pub parameter: bool,
    pub names: Seq<Seq<char>>,
}

pub struct ArmView {
    pub condition: ExprView,
    pub body: Seq<StmtView>,
}

pub enum StmtView {
    At(int),
    Declare(DeclView),
    Assign { target: Seq<char>, value: ExprView },
    AssignDeferred { target: Seq<char>, value: ExprView },
    Expr(ExprView),
    If { condition: ExprView, then_body: Seq<StmtView>, else_body: Seq<StmtView> },
    While { condition: ExprView, body: Seq<StmtView> },
    DoUntil { body: Seq<StmtView>, condition: ExprView },
    Switch { arms: Seq<ArmView>, default: Seq<StmtView> },
    Break,
    Return(Option<ExprView>),
    Equation { left: ExprView, right: ExprView },
    Unknowns(Seq<Seq<char>>),
}

pub open spec fn names_view(s: Seq<String>) -> Seq<Seq<char>> {
    s.map_values(|n: String| n@)
}

pub open spec fn expr_view(e: Expr) -> ExprView
    decreases e,
{
    match e {
        Expr::Number(s) => ExprView::Number(s@),
        Expr::Str(s) => ExprView::Str(s@),
        Expr::Handle(s) => ExprView::Handle(s@),
        Expr::Var(s) => ExprView::Var(s@),
        Expr::Unary(o, a) => ExprView::Unary(o, Box::new(expr_view(*a))),
        Expr::Binary(o, a, b) => ExprView::Binary(o, Box::new(expr_view(*a)), Box::new(expr_view(*b))),
        Expr::Call(n, args) => ExprView::Call(n@, exprs_view(args@)),
    }
}

pub open spec fn exprs_view(s: Seq<Expr>) -> Seq<ExprView>
    decreases s,
{
    if s.len() == 0 {
        Seq::empty()
    } else {
        exprs_view(s.subrange(0, s.len() - 1)).push(expr_view(s[s.len() - 1]))
    }
}

pub open spec fn decl_view(d: Declaration) -> DeclView {
    DeclView { var_type: d.var_type@, local: d.local, parameter: d.parameter, names: names_view(d.names@) }
}

pub open spec fn stmt_view(s: Stmt) -> StmtView
    decreases s,
{
    match s {
        Stmt::At(l) => StmtView::At(l as int),
        Stmt::Declare(d) => StmtView::Declare(decl_view(d)),
        Stmt::Assign { target, value } => StmtView::Assign { target: target@, value: expr_view(value) },
        Stmt::AssignDeferred { target, value } => StmtView::AssignDeferred {
            target: target@,
            value: expr_view(value),
        },
        Stmt::Expr(e) => StmtView::Expr(expr_view(e)),
        Stmt::If { condition, then_body, else_body } => StmtView::If {
            condition: expr_view(condition),
            then_body: stmts_view(then_body@),
            else_body: stmts_view(else_body@),
        },
        Stmt::While { condition, body } => StmtView::While {
            condition: expr_view(condition),
            body: stmts_view(body@),
        },
        Stmt::DoUntil { body, condition } => StmtView::DoUntil {
            body: stmts_view(body@),
            condition: expr_view(condition),
        },
        Stmt::Switch { arms, default } => StmtView::Switch {
            arms: arms_view(arms@),
            default: stmts_view(default@),
        },
        Stmt::Break => StmtView::Break,
        Stmt::Return(e) => StmtView::Return(
            match e {
                Some(x) => Some(expr_view(x)),
                None => None,
            },
        ),
        Stmt::Equation { left, right } => StmtView::Equation { left: expr_view(left), right: expr_view(right) },
        Stmt::Unknowns(ns) => StmtView::Unknowns(names_view(ns@)),
    }
}

pub open spec fn stmts_view(s: Seq<Stmt>) -> Seq<StmtView>
    decreases s,
{
    if s.len() == 0 {
        Seq::empty()
    } else {
        stmts_view(s.subrange(0, s.len() - 1)).push(stmt_view(s[s.len() - 1]))
    }
}

pub open spec fn arm_view(a: CaseArm) -> ArmView
    decreases a,
{
    ArmView { condition: expr_view(a.condition), body: stmts_view(a.body@) }
}

pub open spec fn arms_view(s: Seq<CaseArm>) -> Seq<ArmView>
    decreases s,
{
    if s.len() == 0 {
        Seq::empty()
    } else {
        arms_view(s.subrange(0, s.len() - 1)).push(arm_view(s[s.len() - 1]))
    }
}

pub open spec fn decls_view(s: Seq<Declaration>) -> Seq<DeclView> {
    s.map_values(|d: Declaration| decl_view(d))
}

pub proof fn lemma_exprs_push(s: Seq<Expr>, e: Expr)
    ensures
        exprs_view(s.push(e)) == exprs_view(s).push(expr_view(e)),
{
    assert(s.push(e).subrange(0, s.len() as int) =~= s);
}

pub proof fn lemma_stmts_len(s: Seq<Stmt>)
    ensures
        stmts_view(s).len() == s.len(),
    decreases s.len(),
{
    if s.len() > 0 {
        lemma_stmts_len(s.subrange(0, s.len() - 1));
    }
}

pub proof fn lemma_stmts_push(s: Seq<Stmt>, x: Stmt)
    ensures
        stmts_view(s.push(x)) == stmts_view(s).push(stmt_view(x)),
{
    assert(s.push(x).subrange(0, s.len() as int) =~= s);
}

pub proof fn lemma_stmts_concat(a: Seq<Stmt>, b: Seq<Stmt>)
    ensures
        stmts_view(a + b) == stmts_view(a) + stmts_view(b),
    decreases b.len(),
{
    if b.len() == 0 {
        assert(a + b =~= a);
        assert(stmts_view(a) + stmts_view(b) =~= stmts_view(a));
    } else {
        let b1 = b.subrange(0, b.len() - 1);
        lemma_stmts_concat(a, b1);
        assert((a + b).subrange(0, (a + b).len() - 1) =~= a + b1);
        assert((a + b)[(a + b).len() - 1] == b[b.len() - 1]);
        assert(stmts_view(a) + stmts_view(b) =~= (stmts_view(a) + stmts_view(b1)).push(stmt_view(b[b.len() - 1])));
    }
}

pub proof fn lemma_arms_push(s: Seq<CaseArm>, x: CaseArm)
    ensures
        arms_view(s.push(x)) == arms_view(s).push(arm_view(x)),
{
    assert(s.push(x).subrange(0, s.len() as int) =~= s);
}

pub proof fn lemma_names_push(s: Seq<String>, x: String)
    ensures
        names_view(s.push(x)) == names_view(s).push(x@),
{
    assert(names_view(s.push(x)) =~= names_view(s).push(x@));
}

} // verus!
