//! The block analyzer: builds the statement-context tree for a function
//! body bottom-up, invoking the flow classifier as a fast path on control
//! structures, applying the per-kind composition rules, normalizing early
//! returns into `if`/`else` chains, and emitting a verdict — inline the
//! body, or wrap it — or a hard error.

use vstd::prelude::*;

use crate::ast::{
    case_view, cases_view, lemma_cases_view, lemma_stmts_view, stmt_view, stmts_view, BlockStmt,
    CaseV, Span, Stmt, StmtV, SwitchCase,
};
use crate::flow_analyzer::{
    analyze_flow, cl_target, g_disrupts, g_falls_through, is_flow_target, try_count, GCounts,
};
use crate::stmt_context::{
    computed, ctx_view, ctxs_view, lemma_ctxs_view, CtxV, Flags, StmtCtx, StmtType,
};

verus! {

/// How the body must be transformed.
#[derive(Debug, Clone, Copy, PartialEq, Eq, Structural)]
pub enum TransformType {
    /// The body's statements can be spliced in directly, with each `return`
    /// becoming an assignment plus minimal breaks.
    Inline,
    /// The body cannot easily be inlined and must be wrapped in one labeled
    /// block.
    Wrapped,
}

impl Default for TransformType {
    fn default() -> (r: TransformType)
        ensures
            r == TransformType::Inline,
    {
        TransformType::Inline
    }
}

/// A successful analysis.
#[derive(Debug)]
pub struct AnalyzeOk {
    /// The transformation to apply to the body.
    pub transform_type: TransformType,
    /// The context the verdict was drawn from.  If analysis finished early,
    /// this is the context of the node that resolved it, not the top level.
    pub final_ctx: StmtCtx,
}

/// A failed analysis: a user-authoring error with its message and location.
#[derive(Debug)]
pub struct AnalyzeError {
    pub msg: String,
    pub span: Option<Span>,
}

/// The outcome of visiting one statement: nothing recorded, a context
/// attached to the parent, or an early finish carrying the resolving
/// context.
pub ghost enum SpStep {
    Skip,
    Ctx(CtxV),
    Early(CtxV),
}

/// The outcome of visiting a statement list.
pub ghost enum SpList {
    Ctxs(Seq<CtxV>),
    Early(CtxV),
}

/// The outcome of analyzing a whole body.
pub ghost enum AnOutcome {
    Inline(CtxV),
    Wrapped(CtxV),
    ErrMissingReturn,
    ErrFinalStmt,
}

/// A fresh context of the given kind.
pub open spec fn fresh_ctx(kind: StmtType) -> CtxV {
    CtxV {
        kind,
        flags: Flags::empty(),
        children: Seq::empty(),
        label: None,
        then_stmts: None,
        else_stmts: None,
    }
}

/// A context recorded by the classifier fast path: flow-neutral.
pub open spec fn nfi_ctx(kind: StmtType) -> CtxV {
    CtxV { flags: Flags { no_flow_impact: true, ..Flags::empty() }, ..fresh_ctx(kind) }
}

/// A context recorded by the classifier fast path: surely able to fall
/// through.
pub open spec fn ft_ctx(kind: StmtType) -> CtxV {
    CtxV { flags: Flags { falls_through: true, ..Flags::empty() }, ..fresh_ctx(kind) }
}

/// A lonely `if`: no `else` branch, yet guaranteed to return when entered.
/// Such a statement, when not last, is rewritten so that everything after it
/// becomes its `else` branch.
pub open spec fn is_lonely_if(c: CtxV) -> bool {
    &&& c.kind == StmtType::If
    &&& c.else_stmts is None
    &&& c.flags.returns
    &&& c.flags.always_returns
}

/// The statement with the given list attached, in a block, as its `else`
/// branch.
pub open spec fn attach_else(v: StmtV, rest: Seq<StmtV>) -> StmtV {
    match v {
        StmtV::If { cons, alt } => StmtV::If {
            cons,
            alt: Some(seq![StmtV::Block { stmts: rest }]),
        },
        _ => v,
    }
}

/// The contexts a step contributes to its parent.
pub open spec fn step_ctxs(s: SpStep) -> Seq<CtxV> {
    match s {
        SpStep::Skip => Seq::empty(),
        SpStep::Ctx(c) => seq![c],
        SpStep::Early(c) => Seq::empty(),
    }
}

/// Composes a node and resolves it: a node that may fall through finishes
/// the analysis early.
pub open spec fn finish_step(c: CtxV) -> SpStep {
    let cc = computed(c);
    if cc.flags.falls_through {
        SpStep::Early(cc)
    } else {
        SpStep::Ctx(cc)
    }
}

/// Composes a node from its children and resolves it, beside the rewritten
/// statement.
pub open spec fn finish_node(c: CtxV, v: StmtV) -> (StmtV, SpStep) {
    (v, finish_step(c))
}

/// The analysis of one statement: the possibly rewritten statement and the
/// step it contributes.
#[verifier::rlimit(100)]
#[verifier::opaque]
pub open spec fn an_stmt(v: StmtV) -> (StmtV, SpStep)
    decreases v, 1nat, 0nat,
{
    match v {
        StmtV::Other => (v, SpStep::Skip),
        StmtV::Assign { target, arg } => (v, SpStep::Skip),
        StmtV::Break { label } => (v, SpStep::Ctx(computed(fresh_ctx(StmtType::Break)))),
        StmtV::Continue { label } => (v, SpStep::Ctx(computed(fresh_ctx(StmtType::Continue)))),
        StmtV::Throw => (v, SpStep::Ctx(computed(fresh_ctx(StmtType::Throw)))),
        StmtV::Return { arg } => (v, SpStep::Ctx(computed(fresh_ctx(StmtType::Return)))),
        StmtV::Block { stmts } => {
            let (ss2, lst) = an_list(stmts);
            match lst {
                SpList::Early(e) => (StmtV::Block { stmts: ss2 }, SpStep::Early(e)),
                SpList::Ctxs(cs) => finish_node(
                    CtxV { children: cs, ..fresh_ctx(StmtType::Block) },
                    StmtV::Block { stmts: ss2 },
                ),
            }
        },
        StmtV::If { cons, alt } => an_if(v, cons, alt),
        StmtV::For { body } => an_loop(v, body, StmtType::For),
        StmtV::ForIn { body } => an_loop(v, body, StmtType::ForIn),
        StmtV::ForOf { body } => an_loop(v, body, StmtType::ForOf),
        StmtV::While { body } => an_loop(v, body, StmtType::While),
        StmtV::DoWhile { body } => {
            let g = cl_target(v);
            if !g_disrupts(g) {
                (v, SpStep::Ctx(nfi_ctx(StmtType::DoWhile)))
            } else if g_falls_through(g) {
                (v, SpStep::Early(ft_ctx(StmtType::DoWhile)))
            } else {
                // A do-while is never analyzed deeply: the safe wrapped
                // verdict is taken at once.
                (v, SpStep::Early(fresh_ctx(StmtType::DoWhile)))
            }
        },
        StmtV::Labeled { label, body } => {
            let g = cl_target(v);
            if !g_disrupts(g) {
                (v, SpStep::Ctx(nfi_ctx(StmtType::Labeled)))
            } else if g_falls_through(g) {
                (v, SpStep::Early(ft_ctx(StmtType::Labeled)))
            } else {
                // A labeled statement that disrupts flow is not analyzed
                // precisely: the safe wrapped verdict is taken at once.
                (
                    v,
                    SpStep::Early(
                        CtxV { label: Some(label), ..fresh_ctx(StmtType::Labeled) },
                    ),
                )
            }
        },
        StmtV::Switch { cases } => {
            let g = cl_target(v);
            if !g_disrupts(g) {
                (v, SpStep::Ctx(nfi_ctx(StmtType::Switch)))
            } else if g_falls_through(g) {
                (v, SpStep::Early(ft_ctx(StmtType::Switch)))
            } else {
                let (cs2, lst) = an_cases(cases);
                match lst {
                    SpList::Early(e) => (StmtV::Switch { cases: cs2 }, SpStep::Early(e)),
                    SpList::Ctxs(children) => finish_node(
                        CtxV { children, ..fresh_ctx(StmtType::Switch) },
                        StmtV::Switch { cases: cs2 },
                    ),
                }
            }
        },
        StmtV::Try { block, handler, finalizer } => {
            let g = cl_target(v);
            if !g_disrupts(g) {
                (v, SpStep::Ctx(nfi_ctx(StmtType::Try)))
            } else if g_falls_through(g) {
                (v, SpStep::Early(ft_ctx(StmtType::Try)))
            } else {
                an_try(v, block, handler, finalizer)
            }
        },
    }
}

/// The analysis of an `if` statement: each branch composed independently.
pub open spec fn an_if(v: StmtV, cons: Seq<StmtV>, alt: Option<Seq<StmtV>>) -> (StmtV, SpStep)
    decreases v, 0nat, 0nat,
    when (v matches StmtV::If { cons: c, alt: a } && c == cons && a == alt) && cons.len() == 1
        && (match alt {
        Some(x) => x.len() == 1,
        None => true,
    })
{
    let (c2, cstep) = an_stmt(cons[0]);
    if cstep is Early {
        (StmtV::If { cons: seq![c2], alt }, cstep)
    } else {
        match alt {
            None => finish_node(
                CtxV { then_stmts: Some(step_ctxs(cstep)), ..fresh_ctx(StmtType::If) },
                StmtV::If { cons: seq![c2], alt: None },
            ),
            Some(aseq) => {
                let (a2, astep) = an_stmt(aseq[0]);
                if astep is Early {
                    (StmtV::If { cons: seq![c2], alt: Some(seq![a2]) }, astep)
                } else {
                    finish_node(
                        CtxV {
                            then_stmts: Some(step_ctxs(cstep)),
                            else_stmts: Some(step_ctxs(astep)),
                            ..fresh_ctx(StmtType::If)
                        },
                        StmtV::If { cons: seq![c2], alt: Some(seq![a2]) },
                    )
                }
            },
        }
    }
}

/// The analysis of a try statement's three branches, each composed as a
/// block-like node.
pub open spec fn an_try(
    v: StmtV,
    block: Seq<StmtV>,
    handler: Option<Seq<StmtV>>,
    finalizer: Option<Seq<StmtV>>,
) -> (StmtV, SpStep)
    decreases v, 0nat, 0nat,
    when (v matches StmtV::Try { block: b, handler: h, finalizer: f } && b == block && h
        == handler && f == finalizer)
{
    let (b2, bstep) = an_branch(block, StmtType::TryBlock);
    if bstep is Early {
        (StmtV::Try { block: b2, handler, finalizer }, bstep)
    } else {
        let (h2, hstep) = match handler {
            Some(hs) => {
                let (x, y) = an_branch(hs, StmtType::TryCatch);
                (Some(x), y)
            },
            None => (None, SpStep::Skip),
        };
        if hstep is Early {
            (StmtV::Try { block: b2, handler: h2, finalizer }, hstep)
        } else {
            let (f2, fstep) = match finalizer {
                Some(fs) => {
                    let (x, y) = an_branch(fs, StmtType::TryFinally);
                    (Some(x), y)
                },
                None => (None, SpStep::Skip),
            };
            if fstep is Early {
                (StmtV::Try { block: b2, handler: h2, finalizer: f2 }, fstep)
            } else {
                finish_node(
                    CtxV {
                        children: step_ctxs(bstep) + step_ctxs(hstep) + step_ctxs(fstep),
                        ..fresh_ctx(StmtType::Try)
                    },
                    StmtV::Try { block: b2, handler: h2, finalizer: f2 },
                )
            }
        }
    }
}

/// The analysis of one branch of a try statement: the statement list becomes
/// one branch context of the given kind.
pub open spec fn an_branch(ss: Seq<StmtV>, kind: StmtType) -> (Seq<StmtV>, SpStep)
    decreases ss, 2nat, 0nat,
{
    let (ss2, lst) = an_list(ss);
    match lst {
        SpList::Early(e) => (ss2, SpStep::Early(e)),
        SpList::Ctxs(cs) => {
            let c = computed(CtxV { children: cs, ..fresh_ctx(kind) });
            if c.flags.falls_through {
                (ss2, SpStep::Early(c))
            } else {
                (ss2, SpStep::Ctx(c))
            }
        },
    }
}

/// The analysis of a loop statement (do-while excepted): the fast path
/// first, then the body composed under the loop rule.
pub open spec fn an_loop(v: StmtV, body: Seq<StmtV>, kind: StmtType) -> (StmtV, SpStep)
    decreases v, 0nat, 0nat,
    when body.len() == 1 && ((v matches StmtV::For { body: b } && b == body) || (v
        matches StmtV::ForIn { body: b } && b == body) || (v matches StmtV::ForOf { body: b } && b
        == body) || (v matches StmtV::While { body: b } && b == body))
{
    let g = cl_target(v);
    if !g_disrupts(g) {
        (v, SpStep::Ctx(nfi_ctx(kind)))
    } else if g_falls_through(g) {
        (v, SpStep::Early(ft_ctx(kind)))
    } else {
        let (b2, bstep) = an_stmt(body[0]);
        let v2 = rebuild_loop(kind, seq![b2]);
        if bstep is Early {
            (v2, bstep)
        } else {
            finish_node(CtxV { children: step_ctxs(bstep), ..fresh_ctx(kind) }, v2)
        }
    }
}

/// A loop shape of the given kind with the given body.
pub open spec fn rebuild_loop(kind: StmtType, body: Seq<StmtV>) -> StmtV {
    match kind {
        StmtType::For => StmtV::For { body },
        StmtType::ForIn => StmtV::ForIn { body },
        StmtType::ForOf => StmtV::ForOf { body },
        _ => StmtV::While { body },
    }
}

/// The analysis of a statement list, with the if-chain normalization:
/// whenever a non-final lonely `if` is found, everything after it moves into
/// a freshly synthesized `else` branch, and the position is re-composed with
/// the new branch.
pub open spec fn an_list(ss: Seq<StmtV>) -> (Seq<StmtV>, SpList)
    decreases ss, 1nat, 0nat,
{
    if ss.len() == 0 {
        (ss, SpList::Ctxs(Seq::empty()))
    } else {
        let (s2, step) = an_stmt(ss[0]);
        match step {
            SpStep::Early(e) => (seq![s2] + ss.drop_first(), SpList::Early(e)),
            SpStep::Skip => {
                let (rest2, rst) = an_list(ss.drop_first());
                (seq![s2] + rest2, rst)
            },
            SpStep::Ctx(c) => {
                if ss.len() > 1 && is_lonely_if(c) {
                    let (rest2, rst) = an_list(ss.drop_first());
                    match rst {
                        SpList::Early(e) => (seq![attach_else(s2, rest2)], SpList::Early(e)),
                        SpList::Ctxs(rcs) => {
                            let bctx = computed(
                                CtxV { children: rcs, ..fresh_ctx(StmtType::Block) },
                            );
                            if bctx.flags.falls_through {
                                (seq![attach_else(s2, rest2)], SpList::Early(bctx))
                            } else {
                                let ifctx = computed(
                                    CtxV {
                                        then_stmts: c.then_stmts,
                                        else_stmts: Some(seq![bctx]),
                                        ..fresh_ctx(StmtType::If)
                                    },
                                );
                                if ifctx.flags.falls_through {
                                    (seq![attach_else(s2, rest2)], SpList::Early(ifctx))
                                } else {
                                    (seq![attach_else(s2, rest2)], SpList::Ctxs(seq![ifctx]))
                                }
                            }
                        },
                    }
                } else {
                    let (rest2, rst) = an_list(ss.drop_first());
                    match rst {
                        SpList::Early(e) => (seq![s2] + rest2, SpList::Early(e)),
                        SpList::Ctxs(cs) => (seq![s2] + rest2, SpList::Ctxs(seq![c] + cs)),
                    }
                }
            },
        }
    }
}

/// The analysis of a switch's arms: each non-empty arm becomes one case
/// context.
pub open spec fn an_cases(cs: Seq<CaseV>) -> (Seq<CaseV>, SpList)
    decreases cs, 1nat, 0nat,
{
    if cs.len() == 0 {
        (cs, SpList::Ctxs(Seq::empty()))
    } else {
        let case = cs[0];
        if case.cons.len() == 0 {
            let (rest2, rst) = an_cases(cs.drop_first());
            (seq![case] + rest2, rst)
        } else {
            let kind = if case.is_default {
                StmtType::SwitchDefault
            } else {
                StmtType::SwitchCase
            };
            let (cons2, lst) = an_list(case.cons);
            let case2 = CaseV { is_default: case.is_default, cons: cons2 };
            match lst {
                SpList::Early(e) => (seq![case2] + cs.drop_first(), SpList::Early(e)),
                SpList::Ctxs(ccs) => {
                    let cctx = computed(CtxV { children: ccs, ..fresh_ctx(kind) });
                    if cctx.flags.falls_through {
                        (seq![case2] + cs.drop_first(), SpList::Early(cctx))
                    } else {
                        let (rest2, rst) = an_cases(cs.drop_first());
                        match rst {
                            SpList::Early(e) => (seq![case2] + rest2, SpList::Early(e)),
                            SpList::Ctxs(children) => (
                                seq![case2] + rest2,
                                SpList::Ctxs(seq![cctx] + children),
                            ),
                        }
                    }
                },
            }
        }
    }
}

/// The analysis of a whole body: the statement list is analyzed, the
/// top-level context composed, and the verdict drawn.  The body must have a
/// return; if it returns but cannot be shown to always return, the safe
/// wrapped verdict is taken; otherwise its final statement must always
/// return.
pub open spec fn an_body(ss: Seq<StmtV>) -> (Seq<StmtV>, AnOutcome) {
    let (ss2, lst) = an_list(ss);
    match lst {
        SpList::Early(e) => (ss2, AnOutcome::Wrapped(e)),
        SpList::Ctxs(cs) => {
            let top = computed(CtxV { children: cs, ..fresh_ctx(StmtType::TopLevel) });
            if top.flags.falls_through {
                (ss2, AnOutcome::Wrapped(top))
            } else if top.flags.returns && !top.flags.always_returns {
                (ss2, AnOutcome::Wrapped(top))
            } else if !top.flags.returns {
                (ss2, AnOutcome::ErrMissingReturn)
            } else if top.children.len() > 0 && top.children.last().flags.always_returns
                && !top.children.last().flags.falls_through {
                (ss2, AnOutcome::Inline(top))
            } else {
                (ss2, AnOutcome::ErrFinalStmt)
            }
        },
    }
}

/// What the analyzer demands of a statement: branch and body positions hold
/// a single statement (the external normalization guarantees it); a switch
/// keeps its default arm last; a try statement has a handler or a
/// finalizer; and each control structure is small enough for the
/// classifier's counters.
pub open spec fn an_pre(v: StmtV) -> bool
    decreases v, 0nat,
{
    match v {
        StmtV::Block { stmts } => an_pre_list(stmts),
        StmtV::Labeled { label, body } => body.len() == 1 && target_ok(v) && an_pre_list(body),
        StmtV::If { cons, alt } => cons.len() == 1 && an_pre_list(cons) && match alt {
            Some(a) => a.len() == 1 && an_pre_list(a),
            None => true,
        },
        StmtV::For { body } => body.len() == 1 && target_ok(v) && an_pre_list(body),
        StmtV::ForIn { body } => body.len() == 1 && target_ok(v) && an_pre_list(body),
        StmtV::ForOf { body } => body.len() == 1 && target_ok(v) && an_pre_list(body),
        StmtV::While { body } => body.len() == 1 && target_ok(v) && an_pre_list(body),
        StmtV::DoWhile { body } => body.len() == 1 && target_ok(v) && an_pre_list(body),
        StmtV::Switch { cases } => target_ok(v) && default_arm_last(cases) && an_pre_cases(cases),
        StmtV::Try { block, handler, finalizer } => target_ok(v) && (handler is Some || finalizer
            is Some) && an_pre_list(block) && (match handler {
            Some(h) => an_pre_list(h),
            None => true,
        }) && (match finalizer {
            Some(f) => an_pre_list(f),
            None => true,
        }),
        _ => true,
    }
}

/// Every statement of the list meets the analyzer's demands.
pub open spec fn an_pre_list(ss: Seq<StmtV>) -> bool
    decreases ss, 1nat,
{
    if ss.len() == 0 {
        true
    } else {
        an_pre(ss[0]) && an_pre_list(ss.drop_first())
    }
}

/// Every arm of the switch meets the analyzer's demands.
pub open spec fn an_pre_cases(cs: Seq<CaseV>) -> bool
    decreases cs, 1nat,
{
    if cs.len() == 0 {
        true
    } else {
        an_pre_list(cs[0].cons) && an_pre_cases(cs.drop_first())
    }
}

/// A control structure small enough for the classifier's counters.
pub open spec fn target_ok(v: StmtV) -> bool {
    &&& cl_target(v).fits()
    &&& try_count(v) <= u32::MAX
}

/// A default arm, if the switch has one, stands last.
pub open spec fn default_arm_last(cs: Seq<CaseV>) -> bool {
    forall|i: int| 0 <= i < cs.len() && cs[i].is_default ==> i == cs.len() - 1
}

} // verus!

verus! {

/// The step an executable visit reports, as a spec value.
pub open spec fn step_of(r: Result<Option<StmtCtx>, StmtCtx>) -> SpStep {
    match r {
        Ok(None) => SpStep::Skip,
        Ok(Some(c)) => SpStep::Ctx(ctx_view(c)),
        Err(c) => SpStep::Early(ctx_view(c)),
    }
}

/// The list outcome an executable visit reports, as a spec value.
pub open spec fn list_of(r: Result<Vec<StmtCtx>, StmtCtx>) -> SpList {
    match r {
        Ok(cs) => SpList::Ctxs(ctxs_view(cs@)),
        Err(c) => SpList::Early(ctx_view(c)),
    }
}

/// The composition of a node keeps its kind, and a composed `if` node keeps
/// its then branch.
proof fn lemma_computed_kind(x: CtxV)
    ensures
        computed(x).kind == x.kind,
        x.then_stmts is Some ==> computed(x).then_stmts is Some,
{
}

/// When the analysis of a statement records a lonely-if context, the
/// statement itself was rewritten to an `if` and the recorded context keeps
/// its then branch.
#[verifier::rlimit(100)]
#[verifier::spinoff_prover]
proof fn lemma_an_stmt_if_inv(v: StmtV)
    requires
        an_pre(v),
    ensures
        (an_stmt(v).1 matches SpStep::Ctx(c) && c.kind == StmtType::If) ==> {
            &&& an_stmt(v).0 is If
            &&& (an_stmt(v).1 matches SpStep::Ctx(c2) && c2.then_stmts is Some)
        },
{
    reveal_with_fuel(an_stmt, 1);
    match v {
        StmtV::Block { stmts } => {
            if an_stmt(v).1 matches SpStep::Ctx(c) {
                lemma_computed_kind(CtxV { children: an_list(stmts).1->Ctxs_0, ..fresh_ctx(StmtType::Block) });
            }
        },
        StmtV::If { cons, alt } => {
            if an_stmt(v).1 matches SpStep::Ctx(c) {
                lemma_computed_kind(
                    CtxV {
                        then_stmts: Some(step_ctxs(an_stmt(cons[0]).1)),
                        ..fresh_ctx(StmtType::If)
                    },
                );
                if alt is Some {
                    lemma_computed_kind(
                        CtxV {
                            then_stmts: Some(step_ctxs(an_stmt(cons[0]).1)),
                            else_stmts: Some(step_ctxs(an_stmt(alt->0[0]).1)),
                            ..fresh_ctx(StmtType::If)
                        },
                    );
                }
            }
        },
        StmtV::For { body } => {
            lemma_an_loop_kind(v, body, StmtType::For);
        },
        StmtV::ForIn { body } => {
            lemma_an_loop_kind(v, body, StmtType::ForIn);
        },
        StmtV::ForOf { body } => {
            lemma_an_loop_kind(v, body, StmtType::ForOf);
        },
        StmtV::While { body } => {
            lemma_an_loop_kind(v, body, StmtType::While);
        },
        StmtV::Switch { cases } => {
            if an_stmt(v).1 is Ctx && an_cases(cases).1 is Ctxs {
                lemma_computed_kind(
                    CtxV { children: an_cases(cases).1->Ctxs_0, ..fresh_ctx(StmtType::Switch) },
                );
            }
        },
        StmtV::Try { block, handler, finalizer } => {
            if an_stmt(v).1 matches SpStep::Ctx(c) && c.kind == StmtType::If {
                lemma_an_try_kind(v, block, handler, finalizer);
            }
        },
        _ => {},
    }
}

/// A loop's analysis never records an `if` context.
#[verifier::rlimit(100)]
#[verifier::spinoff_prover]
proof fn lemma_an_loop_kind(v: StmtV, body: Seq<StmtV>, kind: StmtType)
    requires
        kind == StmtType::For || kind == StmtType::ForIn || kind == StmtType::ForOf || kind
            == StmtType::While,
        body.len() == 1,
        (v matches StmtV::For { body: b } && b == body) || (v matches StmtV::ForIn { body: b } && b
            == body) || (v matches StmtV::ForOf { body: b } && b == body) || (v
            matches StmtV::While { body: b } && b == body),
    ensures
        an_loop(v, body, kind).1 matches SpStep::Ctx(c) ==> c.kind == kind,
{
    if an_loop(v, body, kind).1 matches SpStep::Ctx(c) {
        let g = cl_target(v);
        if g_disrupts(g) && !g_falls_through(g) {
            lemma_computed_kind(
                CtxV { children: step_ctxs(an_stmt(body[0]).1), ..fresh_ctx(kind) },
            );
        }
    }
}

/// A try statement's analysis never records an `if` context.
#[verifier::rlimit(100)]
#[verifier::spinoff_prover]
proof fn lemma_an_try_kind(
    v: StmtV,
    block: Seq<StmtV>,
    handler: Option<Seq<StmtV>>,
    finalizer: Option<Seq<StmtV>>,
)
    requires
        v matches StmtV::Try { block: b, handler: h, finalizer: f } && b == block && h == handler
            && f == finalizer,
    ensures
        an_try(v, block, handler, finalizer).1 matches SpStep::Ctx(c) ==> c.kind == StmtType::Try,
{
    if an_try(v, block, handler, finalizer).1 matches SpStep::Ctx(c) {
        let (b2, bstep) = an_branch(block, StmtType::TryBlock);
        let (h2, hstep) = match handler {
            Some(hs) => {
                let (x, y) = an_branch(hs, StmtType::TryCatch);
                (Some(x), y)
            },
            None => (None::<Seq<StmtV>>, SpStep::Skip),
        };
        let (f2, fstep) = match finalizer {
            Some(fs) => {
                let (x, y) = an_branch(fs, StmtType::TryFinally);
                (Some(x), y)
            },
            None => (None::<Seq<StmtV>>, SpStep::Skip),
        };
        if !(bstep is Early) && !(hstep is Early) && !(fstep is Early) {
            lemma_computed_kind(
                CtxV {
                    children: step_ctxs(bstep) + step_ctxs(hstep) + step_ctxs(fstep),
                    ..fresh_ctx(StmtType::Try)
                },
            );
        }
    }
}

/// An empty context vector, with its empty shape.
fn ctx_vec0() -> (r: Vec<StmtCtx>)
    ensures
        r@.len() == 0,
        ctxs_view(r@) == Seq::<CtxV>::empty(),
{
    let r: Vec<StmtCtx> = Vec::new();
    proof {
        assert(ctxs_view(r@) =~= Seq::<CtxV>::empty());
    }
    r
}

/// A one-context vector, with its one-element shape.
fn ctx_vec1(c: StmtCtx) -> (r: Vec<StmtCtx>)
    ensures
        r@.len() == 1,
        ctxs_view(r@) == seq![ctx_view(c)],
{
    let ghost cv = ctx_view(c);
    let mut r: Vec<StmtCtx> = Vec::new();
    r.push(c);
    proof {
        assert(r@.drop_last() =~= Seq::<StmtCtx>::empty());
        assert(ctxs_view(r@.drop_last()) =~= Seq::<CtxV>::empty());
        assert(ctxs_view(r@) =~= seq![cv]);
    }
    r
}

/// Prepends a context to a context vector, extending its shape.
fn ctx_cons(c: StmtCtx, rest: Vec<StmtCtx>) -> (r: Vec<StmtCtx>)
    ensures
        ctxs_view(r@) == seq![ctx_view(c)] + ctxs_view(rest@),
{
    let ghost cv = ctx_view(c);
    let ghost rv = rest@;
    let mut r = rest;
    r.insert(0, c);
    proof {
        lemma_ctxs_view(rv);
        lemma_ctxs_view(r@);
        assert(r@ =~= seq![r@[0]] + rv);
        assert(ctxs_view(r@) =~= seq![cv] + ctxs_view(rv));
    }
    r
}

/// Appends a context to a context vector, extending its shape.
fn ctx_push(v: &mut Vec<StmtCtx>, c: StmtCtx)
    ensures
        ctxs_view(final(v)@) == ctxs_view(old(v)@).push(ctx_view(c)),
{
    let ghost cv = ctx_view(c);
    let ghost pre = v@;
    v.push(c);
    proof {
        assert(v@.drop_last() =~= pre);
        assert(ctxs_view(v@) =~= ctxs_view(pre).push(cv));
    }
}

/// Builds the context the fast path records for a resolved node.
fn fast_ctx(kind: StmtType, flag: Flags) -> (r: StmtCtx)
    ensures
        ctx_view(r) == (CtxV { flags: Flags::empty().spec_union(flag), ..fresh_ctx(kind) }),
{
    let mut c = StmtCtx::new(kind);
    c.add(flag);
    c
}

/// The kind of context node a statement opens.
fn stmt_ctx_kind(stmt: &Stmt) -> (r: StmtType)
    ensures
        r == spec_stmt_ctx_kind(stmt_view(*stmt)),
{
    match stmt {
        Stmt::Block(_) => StmtType::Block,
        Stmt::Labeled(_, _) => StmtType::Labeled,
        Stmt::If(_, _) => StmtType::If,
        Stmt::For(_) => StmtType::For,
        Stmt::ForIn(_) => StmtType::ForIn,
        Stmt::ForOf(_) => StmtType::ForOf,
        Stmt::While(_) => StmtType::While,
        Stmt::DoWhile(_) => StmtType::DoWhile,
        Stmt::Switch(_) => StmtType::Switch,
        Stmt::Try(_, _, _) => StmtType::Try,
        Stmt::Break(_) => StmtType::Break,
        Stmt::Continue(_) => StmtType::Continue,
        Stmt::Throw => StmtType::Throw,
        Stmt::Return(_) => StmtType::Return,
        Stmt::Assign(_, _) => StmtType::Unknown,
        Stmt::Other => StmtType::Unknown,
    }
}

/// The kind of context node a statement shape opens.
pub open spec fn spec_stmt_ctx_kind(v: StmtV) -> StmtType {
    match v {
        StmtV::Block { .. } => StmtType::Block,
        StmtV::Labeled { .. } => StmtType::Labeled,
        StmtV::If { .. } => StmtType::If,
        StmtV::For { .. } => StmtType::For,
        StmtV::ForIn { .. } => StmtType::ForIn,
        StmtV::ForOf { .. } => StmtType::ForOf,
        StmtV::While { .. } => StmtType::While,
        StmtV::DoWhile { .. } => StmtType::DoWhile,
        StmtV::Switch { .. } => StmtType::Switch,
        StmtV::Try { .. } => StmtType::Try,
        StmtV::Break { .. } => StmtType::Break,
        StmtV::Continue { .. } => StmtType::Continue,
        StmtV::Throw => StmtType::Throw,
        StmtV::Return { .. } => StmtType::Return,
        _ => StmtType::Unknown,
    }
}

/// Visits one statement, building its context bottom-up.  Control
/// structures go through the classifier fast path first: a structure whose
/// jumps all stay inside it is flow-neutral and needs no deep traversal; one
/// that surely may fall through resolves the whole analysis to the wrapped
/// verdict at once.
#[verifier::rlimit(100)]
#[verifier::spinoff_prover]
fn visit_stmt_a(stmt: &mut Stmt) -> (r: Result<Option<StmtCtx>, StmtCtx>)
    requires
        an_pre(stmt_view(*old(stmt))),
    ensures
        stmt_view(*final(stmt)) == an_stmt(stmt_view(*old(stmt))).0,
        step_of(r) == an_stmt(stmt_view(*old(stmt))).1,
    decreases *old(stmt), 3nat,
{
    proof {
        reveal_with_fuel(an_stmt, 1);
    }
    let ghost v = stmt_view(*old(stmt));
    let target = match &*stmt {
        Stmt::Labeled(_, _) => true,
        Stmt::Switch(_) => true,
        Stmt::Try(_, _, _) => true,
        Stmt::For(_) => true,
        Stmt::ForIn(_) => true,
        Stmt::ForOf(_) => true,
        Stmt::While(_) => true,
        Stmt::DoWhile(_) => true,
        _ => false,
    };
    if target {
        proof {
            assert(is_flow_target(v));
        }
        return visit_target_a(stmt, Ghost(v));
    }
    if matches!(&*stmt, Stmt::If(_, _)) {
        return visit_if_a(stmt, Ghost(v));
    }
    match &mut *stmt {
        Stmt::Other => Ok(None),
        Stmt::Assign(_, _) => Ok(None),
        Stmt::Break(_) => {
            let mut c = StmtCtx::new(StmtType::Break);
            c.compute();
            Ok(Some(c))
        },
        Stmt::Continue(_) => {
            let mut c = StmtCtx::new(StmtType::Continue);
            c.compute();
            Ok(Some(c))
        },
        Stmt::Throw => {
            let mut c = StmtCtx::new(StmtType::Throw);
            c.compute();
            Ok(Some(c))
        },
        Stmt::Return(_) => {
            let mut c = StmtCtx::new(StmtType::Return);
            c.compute();
            Ok(Some(c))
        },
        Stmt::Block(stmts) => {
            let ghost sv = stmts_view(stmts@);
            let r = visit_block_a(stmts);
            proof {
                assert(stmt_view(*stmt) =~= StmtV::Block { stmts: stmts_view(stmts@) });
            }
            r
        },
        _ => {
            proof {
                assert(false);
            }
            Ok(None)
        },
    }
}


/// Visits one control structure: the classifier fast path first, then — for
/// the structures analyzed deeply — the per-kind traversal.
#[verifier::rlimit(100)]
#[verifier::spinoff_prover]
fn visit_target_a(stmt: &mut Stmt, Ghost(v): Ghost<StmtV>) -> (r: Result<Option<StmtCtx>, StmtCtx>)
    requires
        v == stmt_view(*old(stmt)),
        is_flow_target(v),
        an_pre(v),
    ensures
        stmt_view(*final(stmt)) == an_stmt(v).0,
        step_of(r) == an_stmt(v).1,
    decreases *old(stmt), 2nat,
{
    proof {
        reveal_with_fuel(an_stmt, 1);
    }
        let kind = stmt_ctx_kind(&*stmt);
        let fa = analyze_flow(&*stmt);
        proof {
            assert(fa.counts() == cl_target(v));
        }
        if !fa.disrupts_flow() {
            proof {
                assert(!g_disrupts(cl_target(v)));
            }
            let c = fast_ctx(kind, Flags::no_flow_impact());
            proof {
                assert(ctx_view(c) =~= nfi_ctx(kind));
            }
            return Ok(Some(c));
        }
        if fa.falls_through() {
            proof {
                assert(g_falls_through(cl_target(v)));
            }
            let c = fast_ctx(kind, Flags::falls_through());
            proof {
                assert(ctx_view(c) =~= ft_ctx(kind));
            }
            return Err(c);
        }
        proof {
            assert(g_disrupts(cl_target(v)) && !g_falls_through(cl_target(v)));
        }
        if matches!(&*stmt, Stmt::Labeled(_, _)) {
            // A labeled statement that disrupts flow is not analyzed
            // precisely: the safe wrapped verdict is taken.
            let mut c = StmtCtx::new(StmtType::Labeled);
            match &*stmt {
                Stmt::Labeled(label, _) => {
                    c.label = Some(label.clone());
                    proof {
                        assert(ctx_view(c) =~= (CtxV {
                            label: Some(label@),
                            ..fresh_ctx(StmtType::Labeled)
                        }));
                    }
                },
                _ => {
                    proof {
                        assert(false);
                    }
                },
            }
            return Err(c);
        }
        if matches!(&*stmt, Stmt::DoWhile(_)) {
            // A do-while is never analyzed deeply: the safe wrapped verdict
            // is taken.
            let c = StmtCtx::new(StmtType::DoWhile);
            proof {
                assert(ctx_view(c) =~= fresh_ctx(StmtType::DoWhile));
            }
            return Err(c);
        }
        if matches!(&*stmt, Stmt::Switch(_)) {
            return visit_switch_stmt_a(stmt, Ghost(v));
        }
        if matches!(&*stmt, Stmt::Try(_, _, _)) {
            return visit_try_a(stmt, Ghost(v));
        }
        return visit_loop_dispatch_a(stmt, Ghost(v));
}

/// Visits a block statement's list and composes the block's context.
#[verifier::rlimit(60)]
fn visit_block_a(stmts: &mut Vec<Stmt>) -> (r: Result<Option<StmtCtx>, StmtCtx>)
    requires
        an_pre_list(stmts_view(old(stmts)@)),
    ensures
        (StmtV::Block { stmts: stmts_view(final(stmts)@) }) == an_stmt(
            (StmtV::Block { stmts: stmts_view(old(stmts)@) }),
        ).0,
        step_of(r) == an_stmt((StmtV::Block { stmts: stmts_view(old(stmts)@) })).1,
    decreases old(stmts)@, 4nat,
{
    proof {
        reveal_with_fuel(an_stmt, 1);
    }
    let ghost sv = stmts_view(old(stmts)@);
    let r = visit_list_a(stmts);
    match r {
        Err(e) => Err(e),
        Ok(children) => {
            let mut c = StmtCtx::new(StmtType::Block);
            c.children = children;
            proof {
                assert(ctx_view(c) =~= (CtxV {
                    children: an_list(sv).1->Ctxs_0,
                    ..fresh_ctx(StmtType::Block)
                }));
            }
            c.compute();
            if c.flags.falls_through {
                Err(c)
            } else {
                Ok(Some(c))
            }
        },
    }
}

/// Composes an `if` node's context from its two visited branches.
#[verifier::rlimit(60)]
fn compose_if(then_ctxs: Vec<StmtCtx>, else_ctxs: Option<Vec<StmtCtx>>) -> (r: Result<
    Option<StmtCtx>,
    StmtCtx,
>)
    ensures
        step_of(r) == finish_step(
            (CtxV {
                then_stmts: Some(ctxs_view(then_ctxs@)),
                else_stmts: match else_ctxs {
                    Some(e) => Some(ctxs_view(e@)),
                    None => None,
                },
                ..fresh_ctx(StmtType::If)
            }),
        ),
{
    let ghost tv = ctxs_view(then_ctxs@);
    let ghost ev = match else_ctxs {
        Some(ref e) => Some(ctxs_view(e@)),
        None => None::<Seq<CtxV>>,
    };
    let mut c = StmtCtx::new(StmtType::If);
    c.then_stmts = Some(then_ctxs);
    c.else_stmts = else_ctxs;
    proof {
        assert(ctx_view(c) =~= (CtxV {
            then_stmts: Some(tv),
            else_stmts: ev,
            ..fresh_ctx(StmtType::If)
        }));
    }
    c.compute();
    if c.flags.falls_through {
        Err(c)
    } else {
        Ok(Some(c))
    }
}

/// Visits the two branches of an `if` statement and composes its context.
#[verifier::rlimit(100)]
#[verifier::spinoff_prover]
fn visit_if_a(stmt: &mut Stmt, Ghost(v): Ghost<StmtV>) -> (r: Result<Option<StmtCtx>, StmtCtx>)
    requires
        v == stmt_view(*old(stmt)),
        v is If,
        an_pre(v),
    ensures
        stmt_view(*final(stmt)) == an_stmt(v).0,
        step_of(r) == an_stmt(v).1,
    decreases *old(stmt), 1nat,
{
    proof {
        reveal_with_fuel(an_stmt, 1);
    }
    match &mut *stmt {
        Stmt::If(cons, alt) => {
            let ghost cv = stmt_view(**cons);
            let c_r = visit_stmt_a(cons);
            let then_ctxs = match c_r {
                Err(e) => {
                    return Err(e);
                },
                Ok(None) => ctx_vec0(),
                Ok(Some(c)) => ctx_vec1(c),
            };
            proof {
                assert(ctxs_view(then_ctxs@) =~= step_ctxs(an_stmt(cv).1));
            }
            match alt {
                None => {
                    proof {
                        assert(stmt_view(*stmt) =~= (StmtV::If {
                            cons: seq![an_stmt(cv).0],
                            alt: None,
                        }));
                    }
                    compose_if(then_ctxs, None)
                },
                Some(a) => {
                    let ghost av = stmt_view(**a);
                    let a_r = visit_stmt_a(a);
                    let else_ctxs = match a_r {
                        Err(e) => {
                            return Err(e);
                        },
                        Ok(None) => ctx_vec0(),
                        Ok(Some(c)) => ctx_vec1(c),
                    };
                    proof {
                        assert(ctxs_view(else_ctxs@) =~= step_ctxs(an_stmt(av).1));
                        assert(stmt_view(*stmt) =~= (StmtV::If {
                            cons: seq![an_stmt(cv).0],
                            alt: Some(seq![an_stmt(av).0]),
                        }));
                    }
                    compose_if(then_ctxs, Some(else_ctxs))
                },
            }
        },
        _ => {
            proof {
                assert(false);
            }
            Ok(None)
        },
    }
}

/// Visits each arm of a disrupting switch and composes the switch's
/// context.
#[verifier::rlimit(100)]
#[verifier::spinoff_prover]
fn visit_switch_stmt_a(stmt: &mut Stmt, Ghost(v): Ghost<StmtV>) -> (r: Result<
    Option<StmtCtx>,
    StmtCtx,
>)
    requires
        v == stmt_view(*old(stmt)),
        v is Switch,
        an_pre(v),
        g_disrupts(cl_target(v)),
        !g_falls_through(cl_target(v)),
    ensures
        stmt_view(*final(stmt)) == an_stmt(v).0,
        step_of(r) == an_stmt(v).1,
    decreases *old(stmt), 1nat,
{
    proof {
        reveal_with_fuel(an_stmt, 1);
    }
    match &mut *stmt {
        Stmt::Switch(cases) => {
            let ghost vcases = cases_view(cases@);
            let r = visit_cases_a(cases);
            proof {
                assert(stmt_view(*stmt) =~= StmtV::Switch { cases: an_cases(vcases).0 });
            }
            match r {
                Err(e) => Err(e),
                Ok(children) => {
                    let mut c = StmtCtx::new(StmtType::Switch);
                    c.children = children;
                    proof {
                        assert(ctx_view(c) =~= (CtxV {
                            children: an_cases(vcases).1->Ctxs_0,
                            ..fresh_ctx(StmtType::Switch)
                        }));
                    }
                    c.compute();
                    if c.flags.falls_through {
                        Err(c)
                    } else {
                        Ok(Some(c))
                    }
                },
            }
        },
        _ => {
            proof {
                assert(false);
            }
            Ok(None)
        },
    }
}

/// Visits the three branches of a disrupting try statement and composes its
/// context.
#[verifier::rlimit(100)]
#[verifier::spinoff_prover]
fn visit_try_a(stmt: &mut Stmt, Ghost(v): Ghost<StmtV>) -> (r: Result<Option<StmtCtx>, StmtCtx>)
    requires
        v == stmt_view(*old(stmt)),
        v is Try,
        an_pre(v),
        g_disrupts(cl_target(v)),
        !g_falls_through(cl_target(v)),
    ensures
        stmt_view(*final(stmt)) == an_stmt(v).0,
        step_of(r) == an_stmt(v).1,
    decreases *old(stmt), 1nat,
{
    proof {
        reveal_with_fuel(an_stmt, 1);
    }
    match &mut *stmt {
        Stmt::Try(block, handler, finalizer) => {
            let ghost bv = stmts_view(block@);
            let b_r = visit_branch_a(block, StmtType::TryBlock);
            let bctx = match b_r {
                Err(e) => {
                    return Err(e);
                },
                Ok(c) => c,
            };
            let ghost bctx_v = ctx_view(bctx);
            let mut children = ctx_vec1(bctx);
            match handler {
                Some(h) => {
                    let h_r = visit_branch_a(h, StmtType::TryCatch);
                    match h_r {
                        Err(e) => {
                            return Err(e);
                        },
                        Ok(c) => {
                            ctx_push(&mut children, c);
                        },
                    }
                },
                None => {},
            }
            match finalizer {
                Some(f) => {
                    let f_r = visit_branch_a(f, StmtType::TryFinally);
                    match f_r {
                        Err(e) => {
                            return Err(e);
                        },
                        Ok(c) => {
                            ctx_push(&mut children, c);
                        },
                    }
                },
                None => {},
            }
            let ghost kids = ctxs_view(children@);
            let mut c = StmtCtx::new(StmtType::Try);
            c.children = children;
            proof {
                assert(ctx_view(c) =~= (CtxV { children: kids, ..fresh_ctx(StmtType::Try) }));
            }
            c.compute();
            if c.flags.falls_through {
                Err(c)
            } else {
                Ok(Some(c))
            }
        },
        _ => {
            proof {
                assert(false);
            }
            Ok(None)
        },
    }
}

/// Dispatches a disrupting loop to its body visit.
#[verifier::rlimit(60)]
fn visit_loop_dispatch_a(stmt: &mut Stmt, Ghost(v): Ghost<StmtV>) -> (r: Result<
    Option<StmtCtx>,
    StmtCtx,
>)
    requires
        v == stmt_view(*old(stmt)),
        v is For || v is ForIn || v is ForOf || v is While,
        an_pre(v),
        g_disrupts(cl_target(v)),
        !g_falls_through(cl_target(v)),
    ensures
        stmt_view(*final(stmt)) == an_stmt(v).0,
        step_of(r) == an_stmt(v).1,
    decreases *old(stmt), 1nat,
{
    proof {
        reveal_with_fuel(an_stmt, 1);
    }
    match &mut *stmt {
        Stmt::For(body) => {
            proof {
                assert(v == rebuild_loop(StmtType::For, seq![stmt_view(**body)]));
            }
            visit_loop_a(body, StmtType::For, Ghost(v))
        },
        Stmt::ForIn(body) => {
            proof {
                assert(v == rebuild_loop(StmtType::ForIn, seq![stmt_view(**body)]));
            }
            visit_loop_a(body, StmtType::ForIn, Ghost(v))
        },
        Stmt::ForOf(body) => {
            proof {
                assert(v == rebuild_loop(StmtType::ForOf, seq![stmt_view(**body)]));
            }
            visit_loop_a(body, StmtType::ForOf, Ghost(v))
        },
        Stmt::While(body) => {
            proof {
                assert(v == rebuild_loop(StmtType::While, seq![stmt_view(**body)]));
            }
            visit_loop_a(body, StmtType::While, Ghost(v))
        },
        _ => {
            proof {
                assert(false);
            }
            Ok(None)
        },
    }
}

/// Visits a loop's body and composes the loop's context.
#[verifier::rlimit(100)]
#[verifier::spinoff_prover]
fn visit_loop_a(body: &mut Box<Stmt>, kind: StmtType, Ghost(v): Ghost<StmtV>) -> (r: Result<
    Option<StmtCtx>,
    StmtCtx,
>)
    requires
        kind == StmtType::For || kind == StmtType::ForIn || kind == StmtType::ForOf || kind
            == StmtType::While,
        v == rebuild_loop(kind, seq![stmt_view(**old(body))]),
        an_pre(v),
        g_disrupts(cl_target(v)),
        !g_falls_through(cl_target(v)),
    ensures
        stmt_view(**final(body)) == an_stmt(stmt_view(**old(body))).0,
        step_of(r) == an_loop(v, seq![stmt_view(**old(body))], kind).1,
    decreases **old(body), 4nat,
{
    let ghost bv = stmt_view(**old(body));
    proof {
        assert(an_pre_list(seq![bv]));
        assert(seq![bv][0] == bv);
        assert(seq![bv].drop_first() =~= Seq::<StmtV>::empty());
        assert(an_pre(bv));
    }
    let b_r = visit_stmt_a(body);
    match b_r {
        Err(e) => Err(e),
        Ok(step) => {
            let mut c = StmtCtx::new(kind);
            match step {
                None => {
                    c.children = ctx_vec0();
                },
                Some(cc) => {
                    c.children = ctx_vec1(cc);
                },
            }
            proof {
                assert(ctx_view(c) =~= (CtxV {
                    children: step_ctxs(an_stmt(bv).1),
                    ..fresh_ctx(kind)
                }));
            }
            c.compute();
            if c.flags.falls_through {
                Err(c)
            } else {
                Ok(Some(c))
            }
        },
    }
}

/// Visits one branch of a try statement and composes its context.
#[verifier::rlimit(60)]
fn visit_branch_a(stmts: &mut Vec<Stmt>, kind: StmtType) -> (r: Result<StmtCtx, StmtCtx>)
    requires
        kind == StmtType::TryBlock || kind == StmtType::TryCatch || kind == StmtType::TryFinally,
        an_pre_list(stmts_view(old(stmts)@)),
    ensures
        stmts_view(final(stmts)@) == an_branch(stmts_view(old(stmts)@), kind).0,
        ({
            let step = an_branch(stmts_view(old(stmts)@), kind).1;
            match r {
                Ok(c) => step == SpStep::Ctx(ctx_view(c)),
                Err(c) => step == SpStep::Early(ctx_view(c)),
            }
        }),
    decreases old(stmts)@, 4nat,
{
    let ghost sv = stmts_view(old(stmts)@);
    let r = visit_list_a(stmts);
    match r {
        Err(e) => Err(e),
        Ok(children) => {
            let mut c = StmtCtx::new(kind);
            c.children = children;
            proof {
                assert(ctx_view(c) =~= (CtxV {
                    children: an_list(sv).1->Ctxs_0,
                    ..fresh_ctx(kind)
                }));
            }
            c.compute();
            if c.flags.falls_through {
                Err(c)
            } else {
                Ok(c)
            }
        },
    }
}

/// Visits each statement of a list, rewriting a non-final lonely `if` so
/// that the statements after it become its `else` branch.
#[verifier::rlimit(100)]
#[verifier::spinoff_prover]
fn visit_list_a(stmts: &mut Vec<Stmt>) -> (r: Result<Vec<StmtCtx>, StmtCtx>)
    requires
        an_pre_list(stmts_view(old(stmts)@)),
    ensures
        stmts_view(final(stmts)@) == an_list(stmts_view(old(stmts)@)).0,
        list_of(r) == an_list(stmts_view(old(stmts)@)).1,
    decreases old(stmts)@, 3nat,
{
    let ghost sv0 = old(stmts)@;
    let ghost vs = stmts_view(sv0);
    proof {
        lemma_stmts_view(sv0);
    }
    if stmts.len() == 0 {
        proof {
            assert(ctxs_view(Seq::<StmtCtx>::empty()) =~= Seq::<CtxV>::empty());
        }
        let r: Vec<StmtCtx> = Vec::new();
        proof {
            assert(ctxs_view(r@) =~= Seq::<CtxV>::empty());
        }
        return Ok(r);
    }
    let mut first = stmts.remove(0);
    let ghost rest_v = stmts@;
    proof {
        assert(rest_v =~= sv0.drop_first());
        lemma_stmts_view(rest_v);
        assert(stmts_view(rest_v) =~= vs.drop_first());
        assert(stmt_view(first) == vs[0]);
    }
    let step = visit_stmt_a(&mut first);
    let ghost first2_v = stmt_view(first);
    match step {
        Err(e) => {
            stmts.insert(0, first);
            proof {
                lemma_stmts_view(stmts@);
                assert(stmts_view(stmts@) =~= seq![first2_v] + vs.drop_first());
            }
            Err(e)
        },
        Ok(None) => {
            let rest_r = visit_list_a(stmts);
            let ghost rest2 = stmts@;
            stmts.insert(0, first);
            proof {
                lemma_stmts_view(rest2);
                lemma_stmts_view(stmts@);
                assert(stmts_view(stmts@) =~= seq![first2_v] + stmts_view(rest2));
            }
            rest_r
        },
        Ok(Some(c)) => {
            let lonely = stmts.len() > 0 && matches!(c.kind, StmtType::If)
                && c.else_stmts.is_none() && c.flags.returns && c.flags.always_returns;
            proof {
                assert(lonely == (vs.len() > 1 && is_lonely_if(ctx_view(c))));
            }
            if lonely {
                proof {
                    lemma_an_stmt_if_inv(vs[0]);
                }
                let rest_r = visit_list_a(stmts);
                let ghost rest2 = stmts@;
                // Move the remaining statements into a fresh `else` branch:
                // `if (c) return a; <rest>` is the same as
                // `if (c) return a; else { <rest> }`.
                let rest_block = stmts.split_off(0);
                proof {
                    assert(rest_block@ =~= rest2);
                    assert(stmts@ =~= Seq::<Stmt>::empty());
                }
                let first = match first {
                    Stmt::If(cons_box, _) => {
                        let ghost cons_v = stmt_view(*cons_box);
                        let blk_stmt = Stmt::Block(rest_block);
                        let ghost blkv = stmt_view(blk_stmt);
                        proof {
                            assert(blkv =~= (StmtV::Block { stmts: stmts_view(rest2) }));
                        }
                        let rebuilt = Stmt::If(cons_box, Some(Box::new(blk_stmt)));
                        proof {
                            assert(first2_v == (StmtV::If {
                                cons: seq![cons_v],
                                alt: match first2_v {
                                    StmtV::If { alt: a0, .. } => a0,
                                    _ => None,
                                },
                            }));
                            assert(stmt_view(rebuilt) =~= (StmtV::If {
                                cons: seq![cons_v],
                                alt: Some(seq![blkv]),
                            }));
                            assert(attach_else(first2_v, stmts_view(rest2)) == (StmtV::If {
                                cons: seq![cons_v],
                                alt: Some(seq![StmtV::Block { stmts: stmts_view(rest2) }]),
                            }));
                            assert(stmt_view(rebuilt) == attach_else(
                                first2_v,
                                stmts_view(rest2),
                            ));
                        }
                        rebuilt
                    },
                    _ => vstd::pervasive::unreached(),
                };
                stmts.insert(0, first);
                proof {
                    lemma_stmts_view(stmts@);
                    assert(stmts_view(stmts@) =~= seq![attach_else(
                        first2_v,
                        an_list(vs.drop_first()).0,
                    )]);
                }
                match rest_r {
                    Err(e) => Err(e),
                    Ok(rcs) => {
                        let mut bctx = StmtCtx::new(StmtType::Block);
                        bctx.children = rcs;
                        proof {
                            assert(ctx_view(bctx) =~= (CtxV {
                                children: an_list(vs.drop_first()).1->Ctxs_0,
                                ..fresh_ctx(StmtType::Block)
                            }));
                        }
                        bctx.compute();
                        if bctx.flags.falls_through {
                            return Err(bctx);
                        }
                        let ghost bctx_v = ctx_view(bctx);
                        let mut ifctx = StmtCtx::new(StmtType::If);
                        ifctx.then_stmts = c.then_stmts;
                        ifctx.else_stmts = Some(ctx_vec1(bctx));
                        proof {
                            assert(ctx_view(ifctx) =~= (CtxV {
                                then_stmts: ctx_view(c).then_stmts,
                                else_stmts: Some(
                                    seq![
                                        computed(
                                            CtxV {
                                                children: an_list(vs.drop_first()).1->Ctxs_0,
                                                ..fresh_ctx(StmtType::Block)
                                            },
                                        ),
                                    ],
                                ),
                                ..fresh_ctx(StmtType::If)
                            }));
                        }
                        ifctx.compute();
                        if ifctx.flags.falls_through {
                            return Err(ifctx);
                        }
                        Ok(ctx_vec1(ifctx))
                    },
                }
            } else {
                let rest_r = visit_list_a(stmts);
                let ghost rest2 = stmts@;
                stmts.insert(0, first);
                proof {
                    lemma_stmts_view(rest2);
                    lemma_stmts_view(stmts@);
                    assert(stmts_view(stmts@) =~= seq![first2_v] + stmts_view(rest2));
                }
                match rest_r {
                    Err(e) => Err(e),
                    Ok(cs) => Ok(ctx_cons(c, cs)),
                }
            }
        },
    }
}

/// Visits each arm of a switch, composing one context per non-empty arm.
#[verifier::rlimit(100)]
#[verifier::spinoff_prover]
fn visit_cases_a(cases: &mut Vec<SwitchCase>) -> (r: Result<Vec<StmtCtx>, StmtCtx>)
    requires
        an_pre_cases(cases_view(old(cases)@)),
    ensures
        cases_view(final(cases)@) == an_cases(cases_view(old(cases)@)).0,
        list_of(r) == an_cases(cases_view(old(cases)@)).1,
    decreases old(cases)@, 3nat,
{
    let ghost cv0 = old(cases)@;
    let ghost vs = cases_view(cv0);
    proof {
        lemma_cases_view(cv0);
    }
    if cases.len() == 0 {
        let r: Vec<StmtCtx> = Vec::new();
        proof {
            assert(ctxs_view(r@) =~= Seq::<CtxV>::empty());
        }
        return Ok(r);
    }
    let mut first = cases.remove(0);
    let ghost rest_v = cases@;
    proof {
        assert(rest_v =~= cv0.drop_first());
        lemma_cases_view(rest_v);
        assert(cases_view(rest_v) =~= vs.drop_first());
        assert(case_view(first) == vs[0]);
    }
    if first.cons.len() == 0 {
        let rest_r = visit_cases_a(cases);
        let ghost rest2 = cases@;
        cases.insert(0, first);
        proof {
            lemma_cases_view(rest2);
            lemma_cases_view(cases@);
            assert(cases_view(cases@) =~= seq![vs[0]] + cases_view(rest2));
        }
        return rest_r;
    }
    let kind = if first.is_default {
        StmtType::SwitchDefault
    } else {
        StmtType::SwitchCase
    };
    let ghost consv = stmts_view(first.cons@);
    let lst = visit_list_a(&mut first.cons);
    let ghost case2_v = case_view(first);
    proof {
        assert(case2_v =~= (CaseV { is_default: vs[0].is_default, cons: an_list(consv).0 }));
    }
    match lst {
        Err(e) => {
            cases.insert(0, first);
            proof {
                lemma_cases_view(cases@);
                assert(cases_view(cases@) =~= seq![case2_v] + vs.drop_first());
            }
            Err(e)
        },
        Ok(ccs) => {
            let mut cctx = StmtCtx::new(kind);
            cctx.children = ccs;
            proof {
                assert(ctx_view(cctx) =~= (CtxV {
                    children: an_list(consv).1->Ctxs_0,
                    ..fresh_ctx(kind)
                }));
            }
            cctx.compute();
            if cctx.flags.falls_through {
                cases.insert(0, first);
                proof {
                    lemma_cases_view(cases@);
                    assert(cases_view(cases@) =~= seq![case2_v] + vs.drop_first());
                }
                return Err(cctx);
            }
            let rest_r = visit_cases_a(cases);
            let ghost rest2 = cases@;
            cases.insert(0, first);
            proof {
                lemma_cases_view(rest2);
                lemma_cases_view(cases@);
                assert(cases_view(cases@) =~= seq![case2_v] + cases_view(rest2));
            }
            match rest_r {
                Err(e) => Err(e),
                Ok(children) => Ok(ctx_cons(cctx, children)),
            }
        },
    }
}

/// Analyzes a function body and decides how it must be transformed so that
/// it can be spliced inline: the body must contain a `return`; when it does
/// but cannot be shown to always return, the safe wrapped verdict is taken;
/// otherwise its final statement must always return, and the body can be
/// inlined.  Both failures are user-authoring errors reported with the
/// body's location.
#[verifier::rlimit(100)]
#[verifier::spinoff_prover]
pub fn analyze(block_stmt: &mut BlockStmt) -> (r: Result<AnalyzeOk, AnalyzeError>)
    requires
        an_pre_list(stmts_view(old(block_stmt).stmts@)),
    ensures
        stmts_view(final(block_stmt).stmts@) == an_body(stmts_view(old(block_stmt).stmts@)).0,
        final(block_stmt).span == old(block_stmt).span,
        ({
            let out = an_body(stmts_view(old(block_stmt).stmts@)).1;
            match r {
                Ok(ok) => match out {
                    AnOutcome::Inline(c) => ok.transform_type == TransformType::Inline && ctx_view(
                        ok.final_ctx,
                    ) == c,
                    AnOutcome::Wrapped(c) => ok.transform_type == TransformType::Wrapped
                        && ctx_view(ok.final_ctx) == c,
                    _ => false,
                },
                Err(e) => match out {
                    AnOutcome::ErrMissingReturn => e.msg@
                        == "A block must always contain a `return` statement."@ && e.span == Some(
                        old(block_stmt).span,
                    ),
                    AnOutcome::ErrFinalStmt => e.msg@
                        == "The final statement in a block must always return a value."@ && e.span
                        == Some(old(block_stmt).span),
                    _ => false,
                },
            }
        }),
{
    let ghost vs = stmts_view(old(block_stmt).stmts@);
    let span = block_stmt.span;
    let r = visit_list_a(&mut block_stmt.stmts);
    match r {
        Err(e) => Ok(AnalyzeOk { transform_type: TransformType::Wrapped, final_ctx: e }),
        Ok(children) => {
            let mut top = StmtCtx::new(StmtType::TopLevel);
            top.children = children;
            proof {
                assert(ctx_view(top) =~= (CtxV {
                    children: an_list(vs).1->Ctxs_0,
                    ..fresh_ctx(StmtType::TopLevel)
                }));
            }
            top.compute();
            if top.flags.falls_through {
                return Ok(AnalyzeOk { transform_type: TransformType::Wrapped, final_ctx: top });
            }
            if top.flags.returns && !top.flags.always_returns {
                return Ok(AnalyzeOk { transform_type: TransformType::Wrapped, final_ctx: top });
            }
            if !top.flags.returns {
                return Err(
                    AnalyzeError {
                        msg: "A block must always contain a `return` statement.".to_owned(),
                        span: Some(span),
                    },
                );
            }
            let n = top.children.len();
            let valid_final = if n > 0 {
                let last = &top.children[n - 1];
                last.flags.always_returns && !last.flags.falls_through
            } else {
                false
            };
            proof {
                lemma_ctxs_view(top.children@);
                if top.children@.len() > 0 {
                    assert(ctxs_view(top.children@).last() == ctx_view(top.children@.last()));
                }
            }
            if valid_final {
                return Ok(AnalyzeOk { transform_type: TransformType::Inline, final_ctx: top });
            }
            Err(
                AnalyzeError {
                    msg: "The final statement in a block must always return a value.".to_owned(),
                    span: Some(span),
                },
            )
        },
    }
}

} // verus!
