//! The statement tree that the analysis walks and the rewriters transform.
//!
//! A body is an ordered list of statements.  Expressions play no role in the
//! analysis, so a statement carries only what the flow rules read: its
//! children, its label, and — for `return` and the assignment a rewriter puts
//! in its place — an opaque handle (`u64`) standing for the argument
//! expression.

use vstd::prelude::*;

verus! {

/// A source location, carried by the body handed to the analyzer and
/// reported back in errors.
#[derive(Clone, Copy, Debug, PartialEq, Eq, Structural)]
pub struct Span {
    pub lo: u32,
    pub hi: u32,
}

impl Span {
    /// The location used for synthesized statements.
    pub fn dummy() -> (r: Span)
        ensures
            r == (Span { lo: 0, hi: 0 }),
    {
        Span { lo: 0, hi: 0 }
    }
}

/// One statement.
#[derive(Debug)]
pub enum Stmt {
    /// `{ ... }`
    Block(Vec<Stmt>),
    /// `label: body`
    Labeled(String, Box<Stmt>),
    /// `if (..) cons else alt` — the test expression is irrelevant here.
    If(Box<Stmt>, Option<Box<Stmt>>),
    /// `for (..;..;..) body`
    For(Box<Stmt>),
    /// `for (.. in ..) body`
    ForIn(Box<Stmt>),
    /// `for (.. of ..) body`
    ForOf(Box<Stmt>),
    /// `while (..) body`
    While(Box<Stmt>),
    /// `do body while (..)`
    DoWhile(Box<Stmt>),
    /// `switch (..) { cases }`
    Switch(Vec<SwitchCase>),
    /// `try { .. } catch { .. } finally { .. }`
    Try(Vec<Stmt>, Option<Vec<Stmt>>, Option<Vec<Stmt>>),
    /// `break label;`
    Break(Option<String>),
    /// `continue label;`
    Continue(Option<String>),
    /// `throw ..;`
    Throw,
    /// `return;` or `return expr;` — the expression is an opaque handle.
    Return(Option<u64>),
    /// `target = expr;` — what a rewriter puts in place of a return.
    /// `None` stands for the undefined value of a bare `return;`.
    Assign(String, Option<u64>),
    /// Any other statement: declarations, expression statements, and the
    /// like, which cannot affect control flow.
    Other,
}

/// One arm of a `switch` statement.
#[derive(Debug)]
pub struct SwitchCase {
    /// Whether this is the `default:` arm.
    pub is_default: bool,
    /// The arm's consequent statements.
    pub cons: Vec<Stmt>,
}

/// A function body: an ordered statement list with its source location.
#[derive(Debug)]
pub struct BlockStmt {
    pub span: Span,
    pub stmts: Vec<Stmt>,
}

/// The mathematical shape of a statement, with sequences in place of
/// vectors.  Single-statement bodies (of labels, branches and loops) appear
/// as one-element sequences.
#[verifier::ext_equal]
pub ghost enum StmtV {
    Block { stmts: Seq<StmtV> },
    Labeled { label: Seq<char>, body: Seq<StmtV> },
    If { cons: Seq<StmtV>, alt: Option<Seq<StmtV>> },
    For { body: Seq<StmtV> },
    ForIn { body: Seq<StmtV> },
    ForOf { body: Seq<StmtV> },
    While { body: Seq<StmtV> },
    DoWhile { body: Seq<StmtV> },
    Switch { cases: Seq<CaseV> },
    Try { block: Seq<StmtV>, handler: Option<Seq<StmtV>>, finalizer: Option<Seq<StmtV>> },
    Break { label: Option<Seq<char>> },
    Continue { label: Option<Seq<char>> },
    Throw,
    Return { arg: Option<u64> },
    Assign { target: Seq<char>, arg: Option<u64> },
    Other,
}

/// The mathematical shape of a switch arm.
#[verifier::ext_equal]
pub ghost struct CaseV {
    pub is_default: bool,
    pub cons: Seq<StmtV>,
}

/// The shape of one statement.
pub open spec fn stmt_view(s: Stmt) -> StmtV
    decreases s,
{
    match s {
        Stmt::Block(stmts) => StmtV::Block { stmts: stmts_view(stmts@) },
        Stmt::Labeled(label, body) => StmtV::Labeled {
            label: label@,
            body: seq![stmt_view(*body)],
        },
        Stmt::If(cons, alt) => StmtV::If {
            cons: seq![stmt_view(*cons)],
            alt: match alt {
                Some(a) => Some(seq![stmt_view(*a)]),
                None => None,
            },
        },
        Stmt::For(body) => StmtV::For { body: seq![stmt_view(*body)] },
        Stmt::ForIn(body) => StmtV::ForIn { body: seq![stmt_view(*body)] },
        Stmt::ForOf(body) => StmtV::ForOf { body: seq![stmt_view(*body)] },
        Stmt::While(body) => StmtV::While { body: seq![stmt_view(*body)] },
        Stmt::DoWhile(body) => StmtV::DoWhile { body: seq![stmt_view(*body)] },
        Stmt::Switch(cases) => StmtV::Switch { cases: cases_view(cases@) },
        Stmt::Try(block, handler, finalizer) => StmtV::Try {
            block: stmts_view(block@),
            handler: match handler {
                Some(h) => Some(stmts_view(h@)),
                None => None,
            },
            finalizer: match finalizer {
                Some(f) => Some(stmts_view(f@)),
                None => None,
            },
        },
        Stmt::Break(label) => StmtV::Break {
            label: match label {
                Some(l) => Some(l@),
                None => None,
            },
        },
        Stmt::Continue(label) => StmtV::Continue {
            label: match label {
                Some(l) => Some(l@),
                None => None,
            },
        },
        Stmt::Throw => StmtV::Throw,
        Stmt::Return(arg) => StmtV::Return { arg },
        Stmt::Assign(target, arg) => StmtV::Assign { target: target@, arg },
        Stmt::Other => StmtV::Other,
    }
}

/// The shape of a statement list.
pub open spec fn stmts_view(s: Seq<Stmt>) -> Seq<StmtV>
    decreases s,
{
    if s.len() == 0 {
        Seq::empty()
    } else {
        stmts_view(s.drop_last()).push(stmt_view(s.last()))
    }
}

/// The shape of one switch arm.
pub open spec fn case_view(c: SwitchCase) -> CaseV
    decreases c,
{
    CaseV { is_default: c.is_default, cons: stmts_view(c.cons@) }
}

/// The shape of a switch arm list.
pub open spec fn cases_view(s: Seq<SwitchCase>) -> Seq<CaseV>
    decreases s,
{
    if s.len() == 0 {
        Seq::empty()
    } else {
        cases_view(s.drop_last()).push(case_view(s.last()))
    }
}

/// A statement list's shape is the elementwise shape.
pub broadcast proof fn lemma_stmts_view(s: Seq<Stmt>)
    ensures
        #![trigger stmts_view(s)]
        stmts_view(s).len() == s.len(),
        forall|i: int| 0 <= i < s.len() ==> stmts_view(s)[i] == stmt_view(s[i]),
    decreases s,
{
    if s.len() > 0 {
        lemma_stmts_view(s.drop_last());
    }
}

/// A switch-arm list's shape is the elementwise shape.
pub broadcast proof fn lemma_cases_view(s: Seq<SwitchCase>)
    ensures
        #![trigger cases_view(s)]
        cases_view(s).len() == s.len(),
        forall|i: int| 0 <= i < s.len() ==> cases_view(s)[i] == case_view(s[i]),
    decreases s,
{
    if s.len() > 0 {
        lemma_cases_view(s.drop_last());
    }
}

/// Whether the statement is a loop.
pub fn is_loop_stmt(stmt: &Stmt) -> (r: bool)
    ensures
        r == is_loop_stmt_v(stmt_view(*stmt)),
{
    match stmt {
        Stmt::DoWhile(_) => true,
        Stmt::For(_) => true,
        Stmt::ForIn(_) => true,
        Stmt::ForOf(_) => true,
        Stmt::While(_) => true,
        _ => false,
    }
}

/// Whether the shape is a loop.
pub open spec fn is_loop_stmt_v(v: StmtV) -> bool {
    ||| v is DoWhile
    ||| v is For
    ||| v is ForIn
    ||| v is ForOf
    ||| v is While
}

/// Whether the statement is a loop, switch, or labeled statement — a
/// statement that `break` can target.
pub fn is_breakable_stmt(stmt: &Stmt) -> (r: bool)
    ensures
        r == is_breakable_stmt_v(stmt_view(*stmt)),
{
    if is_loop_stmt(stmt) {
        return true;
    }
    match stmt {
        Stmt::Switch(_) => true,
        Stmt::Labeled(_, _) => true,
        _ => false,
    }
}

/// Whether the shape is one that `break` can target.
pub open spec fn is_breakable_stmt_v(v: StmtV) -> bool {
    ||| is_loop_stmt_v(v)
    ||| v is Switch
    ||| v is Labeled
}

} // verus!
