//! The flow classifier: scoped to one control structure (the "target"), it
//! counts the jump statements found anywhere within it and classifies each as
//! exiting the target scope, a scope nested inside it, or a parent scope
//! outside it.

use vstd::prelude::*;

use crate::ast::{is_loop_stmt, is_loop_stmt_v, stmt_view, stmts_view, CaseV, Stmt, StmtV};
use crate::ast::{case_view, cases_view, lemma_cases_view, lemma_stmts_view, SwitchCase};
use crate::context::{Context, ContextDefault};

verus! {

/// The scope kind a statement opens on the label-scope stack.
#[derive(Clone, Copy, Debug, PartialEq, Eq, Structural)]
pub enum LabelScopeKind {
    /// The statement opens no breakable scope.
    NonBreakable,
    Labeled,
    Loop,
    Switch,
}

impl LabelScopeKind {
    /// The scope kind that the given statement opens.
    pub fn from_stmt(stmt: &Stmt) -> (r: LabelScopeKind)
        ensures
            r == scope_kind_of(stmt_view(*stmt)),
    {
        if is_loop_stmt(stmt) {
            return LabelScopeKind::Loop;
        }
        match stmt {
            Stmt::Labeled(_, _) => LabelScopeKind::Labeled,
            Stmt::Switch(_) => LabelScopeKind::Switch,
            _ => LabelScopeKind::NonBreakable,
        }
    }
}

/// The scope kind a statement shape opens.
pub open spec fn scope_kind_of(v: StmtV) -> LabelScopeKind {
    if is_loop_stmt_v(v) {
        LabelScopeKind::Loop
    } else if v is Labeled {
        LabelScopeKind::Labeled
    } else if v is Switch {
        LabelScopeKind::Switch
    } else {
        LabelScopeKind::NonBreakable
    }
}

/// One entry of the label-scope stack.
#[derive(Debug)]
pub struct LabelScope {
    pub kind: LabelScopeKind,
    pub label: Option<String>,
    /// Whether this scope is the one under classification.
    pub is_target: bool,
}

/// The shape of one label scope: what classification reads of it.  The
/// label carried by a scope is never consulted — a labeled jump resolves
/// against the target's label and the labels declared inside the target.
#[verifier::ext_equal]
pub ghost struct ScopeV {
    pub kind: LabelScopeKind,
    pub is_target: bool,
}

/// The shape of a label scope.
pub open spec fn scope_view(s: LabelScope) -> ScopeV {
    ScopeV { kind: s.kind, is_target: s.is_target }
}

/// The shape of a scope stack.
pub open spec fn scopes_view(s: Seq<LabelScope>) -> Seq<ScopeV>
    decreases s,
{
    if s.len() == 0 {
        Seq::empty()
    } else {
        scopes_view(s.drop_last()).push(scope_view(s.last()))
    }
}

/// A scope stack's shape is the elementwise shape.
pub proof fn lemma_scopes_view(s: Seq<LabelScope>)
    ensures
        scopes_view(s).len() == s.len(),
        forall|i: int| 0 <= i < s.len() ==> scopes_view(s)[i] == scope_view(s[i]),
    decreases s,
{
    if s.len() > 0 {
        lemma_scopes_view(s.drop_last());
    }
}

/// The shape of a label list.
pub open spec fn labels_view(s: Seq<String>) -> Seq<Seq<char>>
    decreases s,
{
    if s.len() == 0 {
        Seq::empty()
    } else {
        labels_view(s.drop_last()).push(s.last()@)
    }
}

/// A label list's shape is the elementwise shape.
pub proof fn lemma_labels_view(s: Seq<String>)
    ensures
        labels_view(s).len() == s.len(),
        forall|i: int| 0 <= i < s.len() ==> labels_view(s)[i] == s[i]@,
    decreases s,
{
    if s.len() > 0 {
        lemma_labels_view(s.drop_last());
    }
}

impl ContextDefault for LabelScope {
    open spec fn spec_default() -> LabelScope {
        LabelScope { kind: LabelScopeKind::NonBreakable, label: None, is_target: false }
    }

    fn default_value() -> (r: LabelScope) {
        LabelScope { kind: LabelScopeKind::NonBreakable, label: None, is_target: false }
    }
}

/// The scope a classified jump exits, relative to the target.
#[derive(Clone, Copy, Debug, PartialEq, Eq, Structural)]
pub enum JumpStmtScope {
    Target,
    Nested,
    Parent,
}

/// A count of the jump statements of one kind found in the target node, by
/// the scope they exit.  `total` always equals
/// `target_scope + nested_scope + parent_scope`.
#[derive(Clone, Copy, Debug, PartialEq, Eq, Structural)]
pub struct JumpStmtCount {
    /// Total count of jumps found in the target node.
    pub total: u16,
    /// Jumps that directly exit the target node's scope.
    pub target_scope: u16,
    /// Jumps that exit a scope nested within the target node.
    pub nested_scope: u16,
    /// Jumps that exit a parent scope outside of the target node: a labeled
    /// break whose label is neither the target's nor declared inside it, a
    /// continue that no loop in the target controls, or a throw that no try
    /// block in the target catches.
    pub parent_scope: u16,
}

impl Default for JumpStmtCount {
    fn default() -> (r: JumpStmtCount)
        ensures
            r == (JumpStmtCount { total: 0, target_scope: 0, nested_scope: 0, parent_scope: 0 }),
    {
        JumpStmtCount { total: 0, target_scope: 0, nested_scope: 0, parent_scope: 0 }
    }
}

/// The mathematical value of one jump count.
#[verifier::ext_equal]
pub ghost struct GCount {
    pub target: nat,
    pub nested: nat,
    pub parent: nat,
}

impl GCount {
    /// The count with nothing counted.
    pub open spec fn zero() -> GCount {
        GCount { target: 0, nested: 0, parent: 0 }
    }

    /// All jumps counted, whatever scope they exit.
    pub open spec fn total(self) -> nat {
        self.target + self.nested + self.parent
    }

    /// One more jump, exiting the given scope.
    pub open spec fn bump(self, s: JumpStmtScope) -> GCount {
        match s {
            JumpStmtScope::Target => GCount { target: self.target + 1, ..self },
            JumpStmtScope::Nested => GCount { nested: self.nested + 1, ..self },
            JumpStmtScope::Parent => GCount { parent: self.parent + 1, ..self },
        }
    }

    /// The componentwise sum of two counts.
    pub open spec fn plus(self, o: GCount) -> GCount {
        GCount {
            target: self.target + o.target,
            nested: self.nested + o.nested,
            parent: self.parent + o.parent,
        }
    }
}

/// The mathematical value of the four jump counts: returns, breaks,
/// continues and throws.
#[verifier::ext_equal]
pub ghost struct GCounts {
    pub ret: GCount,
    pub brk: GCount,
    pub cont: GCount,
    pub thr: GCount,
}

impl GCounts {
    /// The counts with nothing counted.
    pub open spec fn zero() -> GCounts {
        GCounts { ret: GCount::zero(), brk: GCount::zero(), cont: GCount::zero(), thr: GCount::zero() }
    }

    /// The componentwise sum of two counts.
    pub open spec fn plus(self, o: GCounts) -> GCounts {
        GCounts {
            ret: self.ret.plus(o.ret),
            brk: self.brk.plus(o.brk),
            cont: self.cont.plus(o.cont),
            thr: self.thr.plus(o.thr),
        }
    }

    /// Whether each total fits the counter width.
    pub open spec fn fits(self) -> bool {
        &&& self.ret.total() <= u16::MAX
        &&& self.brk.total() <= u16::MAX
        &&& self.cont.total() <= u16::MAX
        &&& self.thr.total() <= u16::MAX
    }
}

/// The value of one executable jump count.
pub open spec fn count_view(c: JumpStmtCount) -> GCount {
    GCount { target: c.target_scope as nat, nested: c.nested_scope as nat, parent: c.parent_scope as nat }
}

/// Whether the executable count is internally consistent: the total is the
/// sum of the three classes.
pub open spec fn count_wf(c: JumpStmtCount) -> bool {
    c.total == c.target_scope + c.nested_scope + c.parent_scope
}

impl JumpStmtCount {
    /// Whether every jump found only affects nested scopes.
    pub fn only_nested(&self) -> (r: bool)
        ensures
            r == (self.total == self.nested_scope),
    {
        self.total == self.nested_scope
    }

    /// Whether the jumps found disrupt the flow of the target node: some
    /// jump was found that does not exit a nested scope.
    pub fn disrupts_flow(&self) -> (r: bool)
        ensures
            r == (self.total > 0 && self.total != self.nested_scope),
    {
        self.total > 0 && !self.only_nested()
    }

    /// Counts one more jump, exiting the given scope.
    fn bump(&mut self, scope: JumpStmtScope)
        requires
            old(self).total < u16::MAX,
            count_wf(*old(self)),
        ensures
            count_view(*final(self)) == count_view(*old(self)).bump(scope),
            final(self).total == old(self).total + 1,
            count_wf(*final(self)),
    {
        self.total = self.total + 1;
        match scope {
            JumpStmtScope::Target => {
                self.target_scope = self.target_scope + 1;
            },
            JumpStmtScope::Nested => {
                self.nested_scope = self.nested_scope + 1;
            },
            JumpStmtScope::Parent => {
                self.parent_scope = self.parent_scope + 1;
            },
        }
    }
}

/// The state the classifier's walk carries: the label-scope stack, the
/// labels declared inside the target so far, the target's own label, and the
/// lexical try-block depth.
#[verifier::ext_equal]
pub ghost struct ClState {
    pub stack: Seq<ScopeV>,
    pub labels: Seq<Seq<char>>,
    pub target_label: Option<Seq<char>>,
    pub is_try_block: bool,
    pub try_depth: nat,
}

/// Which scope a labeled break or continue exits: the target when the label
/// is the target's own, a nested scope when the label is declared inside the
/// target, and a parent scope otherwise.
pub open spec fn label_exits_scope(st: ClState, l: Seq<char>) -> JumpStmtScope {
    if st.target_label == Some(l) {
        JumpStmtScope::Target
    } else if st.labels.contains(l) {
        JumpStmtScope::Nested
    } else {
        JumpStmtScope::Parent
    }
}

/// Which scope an unlabeled continue exits when its own scope is not a
/// loop: the nearest enclosing loop scope decides.
pub open spec fn nearest_loop_scope(stack: Seq<ScopeV>) -> JumpStmtScope
    decreases stack,
{
    if stack.len() == 0 {
        JumpStmtScope::Parent
    } else if stack.last().kind == LabelScopeKind::Loop {
        if stack.last().is_target {
            JumpStmtScope::Target
        } else {
            JumpStmtScope::Nested
        }
    } else {
        nearest_loop_scope(stack.drop_last())
    }
}

/// Which scope a break or continue exits.
pub open spec fn exits_which_scope(st: ClState, label: Option<Seq<char>>, is_continue: bool) -> JumpStmtScope {
    match label {
        Some(l) => label_exits_scope(st, l),
        None => {
            let cur = st.stack.last();
            if cur.is_target {
                if is_continue && cur.kind != LabelScopeKind::Loop {
                    // The continue is in the target scope, but the target is
                    // not a loop: it exits the closest loop, which must be a
                    // parent scope.
                    JumpStmtScope::Parent
                } else if cur.kind == LabelScopeKind::NonBreakable {
                    // The target scope is not breakable.
                    JumpStmtScope::Parent
                } else {
                    JumpStmtScope::Target
                }
            } else {
                if is_continue && cur.kind != LabelScopeKind::Loop {
                    nearest_loop_scope(st.stack)
                } else {
                    JumpStmtScope::Nested
                }
            }
        },
    }
}

/// Which scope a throw exits: the target when the target is a try block and
/// no try block stands between; a parent scope when nothing catches it; a
/// nested scope when a try block inside the target will catch it.
pub open spec fn throw_exits_scope(st: ClState) -> JumpStmtScope {
    if st.try_depth == 0 {
        if st.is_try_block {
            JumpStmtScope::Target
        } else {
            JumpStmtScope::Parent
        }
    } else {
        JumpStmtScope::Nested
    }
}

/// The state after entering a scope of the given kind.
pub open spec fn enter_scope(st: ClState, kind: LabelScopeKind) -> ClState {
    ClState { stack: st.stack.push(ScopeV { kind, is_target: false }), ..st }
}

/// The jump counts contributed by one statement, classified in the given
/// state.
pub open spec fn cl_stmt(v: StmtV, st: ClState) -> GCounts
    decreases v, 0nat,
{
    match v {
        StmtV::Block { stmts } => cl_list(stmts, st),
        StmtV::Labeled { label, body } => {
            let st1 = ClState { labels: st.labels.push(label), ..st };
            if body.len() == 1 && scope_kind_of(body[0]) != LabelScopeKind::NonBreakable {
                // The body opens its own scope, which will carry this label;
                // pushing another here would double-count.
                cl_list(body, st1)
            } else {
                cl_list(body, enter_scope(st1, LabelScopeKind::Labeled))
            }
        },
        StmtV::If { cons, alt } => cl_list(cons, st).plus(
            match alt {
                Some(a) => cl_list(a, st),
                None => GCounts::zero(),
            },
        ),
        StmtV::For { body } => cl_list(body, enter_scope(st, LabelScopeKind::Loop)),
        StmtV::ForIn { body } => cl_list(body, enter_scope(st, LabelScopeKind::Loop)),
        StmtV::ForOf { body } => cl_list(body, enter_scope(st, LabelScopeKind::Loop)),
        StmtV::While { body } => cl_list(body, enter_scope(st, LabelScopeKind::Loop)),
        StmtV::DoWhile { body } => cl_list(body, enter_scope(st, LabelScopeKind::Loop)),
        StmtV::Switch { cases } => cl_cases(cases, enter_scope(st, LabelScopeKind::Switch)),
        StmtV::Try { block, handler, finalizer } => {
            let inner = cl_list(block, ClState { try_depth: st.try_depth + 1, ..st });
            let h = match handler {
                Some(hs) => cl_list(hs, st),
                None => GCounts::zero(),
            };
            let f = match finalizer {
                Some(fs) => cl_list(fs, st),
                None => GCounts::zero(),
            };
            inner.plus(h).plus(f)
        },
        StmtV::Break { label } => GCounts {
            brk: GCount::zero().bump(exits_which_scope(st, label, false)),
            ..GCounts::zero()
        },
        StmtV::Continue { label } => GCounts {
            cont: GCount::zero().bump(exits_which_scope(st, label, true)),
            ..GCounts::zero()
        },
        StmtV::Throw => GCounts { thr: GCount::zero().bump(throw_exits_scope(st)), ..GCounts::zero() },
        StmtV::Return { arg } => GCounts {
            // A return always exits the target scope: nothing inside the
            // classifier's view scopes a return.
            ret: GCount::zero().bump(JumpStmtScope::Target),
            ..GCounts::zero()
        },
        StmtV::Assign { target, arg } => GCounts::zero(),
        StmtV::Other => GCounts::zero(),
    }
}

/// The jump counts contributed by a statement list.
pub open spec fn cl_list(ss: Seq<StmtV>, st: ClState) -> GCounts
    decreases ss, 1nat,
{
    if ss.len() == 0 {
        GCounts::zero()
    } else {
        cl_stmt(ss[0], st).plus(cl_list(ss.drop_first(), st))
    }
}

/// The jump counts contributed by a switch's arms.
pub open spec fn cl_cases(cs: Seq<CaseV>, st: ClState) -> GCounts
    decreases cs, 1nat,
{
    if cs.len() == 0 {
        GCounts::zero()
    } else {
        cl_list(cs[0].cons, st).plus(cl_cases(cs.drop_first(), st))
    }
}

/// The initial state for a target with the given bottom scope.
pub open spec fn init_state(scope: ScopeV, target_label: Option<Seq<char>>, is_try_block: bool) -> ClState {
    ClState { stack: seq![scope], labels: Seq::empty(), target_label, is_try_block, try_depth: 0 }
}

/// The classification of a whole target node: the counts that
/// [`analyze_flow`] reports.
pub open spec fn cl_target(v: StmtV) -> GCounts {
    match v {
        StmtV::Labeled { label, body } => cl_list(
            body,
            init_state(
                ScopeV { kind: LabelScopeKind::Labeled, is_target: true },
                Some(label),
                false,
            ),
        ),
        StmtV::Switch { cases } => cl_cases(
            cases,
            init_state(ScopeV { kind: LabelScopeKind::Switch, is_target: true }, None, false),
        ),
        StmtV::Try { block, handler, finalizer } => {
            let scope = ScopeV { kind: LabelScopeKind::NonBreakable, is_target: true };
            let inner = cl_list(block, init_state(scope, None, true));
            let h = match handler {
                Some(hs) => cl_list(hs, init_state(scope, None, false)),
                None => GCounts::zero(),
            };
            let f = match finalizer {
                Some(fs) => cl_list(fs, init_state(scope, None, false)),
                None => GCounts::zero(),
            };
            inner.plus(h).plus(f)
        },
        StmtV::For { body } => cl_loop_target(body),
        StmtV::ForIn { body } => cl_loop_target(body),
        StmtV::ForOf { body } => cl_loop_target(body),
        StmtV::While { body } => cl_loop_target(body),
        StmtV::DoWhile { body } => cl_loop_target(body),
        _ => GCounts::zero(),
    }
}

/// The classification of a loop target: its body walked under the loop's own
/// target scope.
pub open spec fn cl_loop_target(body: Seq<StmtV>) -> GCounts {
    cl_list(body, init_state(ScopeV { kind: LabelScopeKind::Loop, is_target: true }, None, false))
}

/// Whether a statement shape may stand as a classification target: a loop,
/// switch, labeled statement or try statement.
pub open spec fn is_flow_target(v: StmtV) -> bool {
    ||| is_loop_stmt_v(v)
    ||| v is Labeled
    ||| v is Switch
    ||| v is Try
}

/// The number of try statements in a subtree — a crude bound on the
/// try-block nesting depth the walk can reach.
pub open spec fn try_count(v: StmtV) -> nat
    decreases v, 0nat,
{
    match v {
        StmtV::Block { stmts } => try_count_list(stmts),
        StmtV::Labeled { label, body } => try_count_list(body),
        StmtV::If { cons, alt } => try_count_list(cons) + match alt {
            Some(a) => try_count_list(a),
            None => 0,
        },
        StmtV::For { body } => try_count_list(body),
        StmtV::ForIn { body } => try_count_list(body),
        StmtV::ForOf { body } => try_count_list(body),
        StmtV::While { body } => try_count_list(body),
        StmtV::DoWhile { body } => try_count_list(body),
        StmtV::Switch { cases } => try_count_cases(cases),
        StmtV::Try { block, handler, finalizer } => 1 + try_count_list(block) + (match handler {
            Some(h) => try_count_list(h),
            None => 0,
        }) + (match finalizer {
            Some(f) => try_count_list(f),
            None => 0,
        }),
        _ => 0,
    }
}

/// The number of try statements in a statement list.
pub open spec fn try_count_list(ss: Seq<StmtV>) -> nat
    decreases ss, 1nat,
{
    if ss.len() == 0 {
        0
    } else {
        try_count(ss[0]) + try_count_list(ss.drop_first())
    }
}

/// The number of try statements under a switch's arms.
pub open spec fn try_count_cases(cs: Seq<CaseV>) -> nat
    decreases cs, 1nat,
{
    if cs.len() == 0 {
        0
    } else {
        try_count_list(cs[0].cons) + try_count_cases(cs.drop_first())
    }
}

/// Whether counts of this shape disrupt the flow of the target node: some
/// jump exists that does not merely exit a nested scope.
pub open spec fn g_disrupts(c: GCounts) -> bool {
    ||| c.ret.total() > 0
    ||| (c.brk.total() > 0 && c.brk.total() != c.brk.nested)
    ||| (c.cont.total() > 0 && c.cont.total() != c.cont.nested)
    ||| (c.thr.total() > 0 && c.thr.total() != c.thr.nested)
}

/// The cheap necessary-but-not-sufficient fall-through check: a return
/// exists and so does a target-scope break or continue.
pub open spec fn g_falls_through(c: GCounts) -> bool {
    c.ret.total() > 0 && (c.brk.target > 0 || c.cont.target > 0)
}

/// Unfolds one step of `cl_list` at an index.
proof fn lemma_cl_list_step(ss: Seq<StmtV>, st: ClState, i: int)
    requires
        0 <= i < ss.len(),
    ensures
        cl_list(ss.subrange(i, ss.len() as int), st) == cl_stmt(ss[i], st).plus(
            cl_list(ss.subrange(i + 1, ss.len() as int), st),
        ),
{
    let t = ss.subrange(i, ss.len() as int);
    assert(t[0] == ss[i]);
    assert(t.drop_first() =~= ss.subrange(i + 1, ss.len() as int));
}

/// Unfolds one step of `cl_cases` at an index.
proof fn lemma_cl_cases_step(cs: Seq<CaseV>, st: ClState, i: int)
    requires
        0 <= i < cs.len(),
    ensures
        cl_cases(cs.subrange(i, cs.len() as int), st) == cl_list(cs[i].cons, st).plus(
            cl_cases(cs.subrange(i + 1, cs.len() as int), st),
        ),
{
    let t = cs.subrange(i, cs.len() as int);
    assert(t[0] == cs[i]);
    assert(t.drop_first() =~= cs.subrange(i + 1, cs.len() as int));
}

/// Unfolds one step of `try_count_list` at an index.
proof fn lemma_try_count_list_step(ss: Seq<StmtV>, i: int)
    requires
        0 <= i < ss.len(),
    ensures
        try_count_list(ss.subrange(i, ss.len() as int)) == try_count(ss[i]) + try_count_list(
            ss.subrange(i + 1, ss.len() as int),
        ),
{
    let t = ss.subrange(i, ss.len() as int);
    assert(t[0] == ss[i]);
    assert(t.drop_first() =~= ss.subrange(i + 1, ss.len() as int));
}

/// Unfolds one step of `try_count_cases` at an index.
proof fn lemma_try_count_cases_step(cs: Seq<CaseV>, i: int)
    requires
        0 <= i < cs.len(),
    ensures
        try_count_cases(cs.subrange(i, cs.len() as int)) == try_count_list(cs[i].cons)
            + try_count_cases(cs.subrange(i + 1, cs.len() as int)),
{
    let t = cs.subrange(i, cs.len() as int);
    assert(t[0] == cs[i]);
    assert(t.drop_first() =~= cs.subrange(i + 1, cs.len() as int));
}

/// A one-statement list contributes exactly that statement's counts.
proof fn lemma_cl_singleton(x: StmtV, st: ClState)
    ensures
        cl_list(seq![x], st) == cl_stmt(x, st).plus(GCounts::zero()),
        cl_list(seq![x], st) == cl_stmt(x, st),
        try_count_list(seq![x]) == try_count(x),
{
    let t = seq![x];
    assert(t.len() == 1);
    assert(t[0] == x);
    assert(t.drop_first() =~= Seq::<StmtV>::empty());
    assert(cl_list(t.drop_first(), st) == GCounts::zero());
    assert(try_count_list(t.drop_first()) == 0);
    lemma_plus_zero(cl_stmt(x, st));
}

/// The empty count is the unit of the sum.
proof fn lemma_plus_zero(a: GCounts)
    ensures
        a.plus(GCounts::zero()) == a,
        GCounts::zero().plus(a) == a,
{
    assert(a.plus(GCounts::zero()) =~= a);
    assert(GCounts::zero().plus(a) =~= a);
}

/// The sum of counts is associative.
proof fn lemma_plus_assoc(a: GCounts, b: GCounts, c: GCounts)
    ensures
        a.plus(b).plus(c) == a.plus(b.plus(c)),
{
    assert(a.plus(b).plus(c) =~= a.plus(b.plus(c)));
}

/// Counts the returns, breaks, continues and throws found within one target
/// statement, each classified by the scope it exits.
#[derive(Debug)]
pub struct FlowAnalyzer {
    /// Whether the target node is a loop (or a labeled loop).
    pub is_loop_stmt: bool,
    /// Whether the target node is a loop, switch or labeled statement.
    pub is_breakable_stmt: bool,
    /// Whether the walk is currently inside the target try statement's own
    /// block.
    pub is_try_block: bool,
    /// The label of the target, when the target is a labeled statement.
    pub target_label: Option<String>,
    /// The labels of the labeled statements declared inside the target and
    /// currently in scope.
    pub labels_defined: Vec<String>,
    /// The `return` statements found.
    pub returns: JumpStmtCount,
    /// The `break` statements found.
    pub breaks: JumpStmtCount,
    /// The `continue` statements found.
    pub continues: JumpStmtCount,
    /// The `throw` statements found.
    pub throws: JumpStmtCount,
    /// The stack of label scopes entered so far.
    pub label_scope: Context<LabelScope>,
    /// The number of try blocks between the walk and the target.
    pub try_block_scope: u32,
}

impl FlowAnalyzer {
    /// The classification state the walk carries.
    pub open spec fn st(&self) -> ClState {
        ClState {
            stack: scopes_view(self.label_scope.stack@),
            labels: labels_view(self.labels_defined@),
            target_label: match self.target_label {
                Some(l) => Some(l@),
                None => None,
            },
            is_try_block: self.is_try_block,
            try_depth: self.try_block_scope as nat,
        }
    }

    /// The counts gathered so far.
    pub open spec fn counts(&self) -> GCounts {
        GCounts {
            ret: count_view(self.returns),
            brk: count_view(self.breaks),
            cont: count_view(self.continues),
            thr: count_view(self.throws),
        }
    }

    /// Every count's total is the sum of its three classes.
    pub open spec fn counts_wf(&self) -> bool {
        &&& count_wf(self.returns)
        &&& count_wf(self.breaks)
        &&& count_wf(self.continues)
        &&& count_wf(self.throws)
    }

    /// A fresh analyzer with the given bottom scope.
    fn fresh(scope: LabelScope, target_label: Option<String>, is_try_block: bool) -> (r:
        FlowAnalyzer)
        ensures
            r.st() == (ClState {
                stack: seq![scope_view(scope)],
                labels: Seq::<Seq<char>>::empty(),
                target_label: match target_label {
                    Some(l) => Some(l@),
                    None => None,
                },
                is_try_block,
                try_depth: 0,
            }),
            r.counts() == GCounts::zero(),
            r.counts_wf(),
            !r.is_loop_stmt,
            !r.is_breakable_stmt,
            r.is_try_block == is_try_block,
            r.target_label == target_label,
    {
        let mut scopes: Context<LabelScope> = Context::new();
        let ghost sv = scope_view(scope);
        scopes.enter_with(scope);
        let r = FlowAnalyzer {
            is_loop_stmt: false,
            is_breakable_stmt: false,
            is_try_block,
            target_label,
            labels_defined: Vec::new(),
            returns: JumpStmtCount::default(),
            breaks: JumpStmtCount::default(),
            continues: JumpStmtCount::default(),
            throws: JumpStmtCount::default(),
            label_scope: scopes,
            try_block_scope: 0,
        };
        proof {
            lemma_scopes_view(r.label_scope.stack@);
            assert(scopes_view(r.label_scope.stack@) =~= seq![sv]);
            assert(labels_view(r.labels_defined@) =~= Seq::<Seq<char>>::empty());
        }
        r
    }

    /// A fresh analyzer with one non-breakable, non-target scope entered.
    pub fn new() -> (r: FlowAnalyzer)
        ensures
            r.st() == (ClState {
                stack: seq![ScopeV { kind: LabelScopeKind::NonBreakable, is_target: false }],
                labels: Seq::<Seq<char>>::empty(),
                target_label: None::<Seq<char>>,
                is_try_block: false,
                try_depth: 0,
            }),
            r.counts() == GCounts::zero(),
            r.counts_wf(),
    {
        FlowAnalyzer::fresh(
            LabelScope { kind: LabelScopeKind::NonBreakable, label: None, is_target: false },
            None,
            false,
        )
    }

    /// Whether the jumps found disrupt the flow of the target node: any
    /// return, or any break, continue or throw that does not merely exit a
    /// nested scope.
    pub fn disrupts_flow(&self) -> (r: bool)
        ensures
            r == (self.returns.total > 0 || (self.breaks.total > 0 && self.breaks.total
                != self.breaks.nested_scope) || (self.continues.total > 0 && self.continues.total
                != self.continues.nested_scope) || (self.throws.total > 0 && self.throws.total
                != self.throws.nested_scope)),
    {
        self.returns.total > 0 || self.breaks.disrupts_flow() || self.continues.disrupts_flow()
            || self.throws.disrupts_flow()
    }

    /// The cheap fall-through check: a return exists together with a
    /// target-scope break or continue.  A `false` answer proves nothing; the
    /// full composition must still run.
    pub fn falls_through(&self) -> (r: bool)
        ensures
            r == (self.returns.total > 0 && (self.breaks.target_scope > 0
                || self.continues.target_scope > 0)),
    {
        if self.returns.total == 0 {
            return false;
        }
        self.breaks.target_scope > 0 || self.continues.target_scope > 0
    }

    /// Pushes a label scope of the given kind.
    fn enter_label_scope(&mut self, kind: LabelScopeKind, label: Option<String>)
        ensures
            final(self).st() == (ClState {
                stack: old(self).st().stack.push(ScopeV { kind, is_target: false }),
                ..old(self).st()
            }),
            final(self).counts() == old(self).counts(),
            final(self).counts_wf() == old(self).counts_wf(),
            final(self).is_loop_stmt == old(self).is_loop_stmt,
            final(self).is_breakable_stmt == old(self).is_breakable_stmt,
            final(self).returns == old(self).returns,
            final(self).breaks == old(self).breaks,
            final(self).continues == old(self).continues,
            final(self).throws == old(self).throws,
    {
        let ghost s0 = self.label_scope.stack@;
        self.label_scope.enter_with(LabelScope { kind, label, is_target: false });
        proof {
            assert(self.label_scope.stack@.drop_last() =~= s0);
        }
    }

    /// Pops the innermost label scope.
    fn exit_label_scope(&mut self)
        requires
            old(self).st().stack.len() > 0,
        ensures
            final(self).st() == (ClState {
                stack: old(self).st().stack.drop_last(),
                ..old(self).st()
            }),
            final(self).counts() == old(self).counts(),
            final(self).counts_wf() == old(self).counts_wf(),
            final(self).is_loop_stmt == old(self).is_loop_stmt,
            final(self).is_breakable_stmt == old(self).is_breakable_stmt,
            final(self).returns == old(self).returns,
            final(self).breaks == old(self).breaks,
            final(self).continues == old(self).continues,
            final(self).throws == old(self).throws,
    {
        let ghost s0 = self.label_scope.stack@;
        proof {
            lemma_scopes_view(s0);
        }
        let _ = self.label_scope.exit();
        proof {
            lemma_scopes_view(self.label_scope.stack@);
            assert(scopes_view(self.label_scope.stack@) =~= scopes_view(s0).drop_last());
        }
    }

    /// Which scope a labeled break or continue exits.
    #[verifier::loop_isolation(false)]
    fn label_exits_which_scope(&self, label: &String) -> (r: JumpStmtScope)
        ensures
            r == label_exits_scope(self.st(), label@),
    {
        match &self.target_label {
            Some(t) => {
                if label.eq(t) {
                    // The target's own label exits the target scope, whatever
                    // the nesting depth.
                    return JumpStmtScope::Target;
                }
            },
            None => {},
        }
        proof {
            lemma_labels_view(self.labels_defined@);
        }
        let mut i: usize = 0;
        while i < self.labels_defined.len()
            invariant
                i <= self.labels_defined@.len(),
                forall|j: int| 0 <= j < i ==> labels_view(self.labels_defined@)[j] != label@,
            decreases self.labels_defined@.len() - i,
        {
            proof {
                lemma_labels_view(self.labels_defined@);
            }
            if self.labels_defined[i].eq(label) {
                proof {
                    assert(labels_view(self.labels_defined@)[i as int] == label@);
                    assert(self.st().labels.contains(label@));
                }
                return JumpStmtScope::Nested;
            }
            i = i + 1;
        }
        proof {
            assert(!self.st().labels.contains(label@)) by {
                if self.st().labels.contains(label@) {
                    let j = choose|j: int|
                        0 <= j < self.st().labels.len() && self.st().labels[j] == label@;
                    assert(labels_view(self.labels_defined@)[j] == label@);
                }
            }
        }
        JumpStmtScope::Parent
    }

    /// Which scope a break or continue exits.
    #[verifier::loop_isolation(false)]
    fn exits_which_scope(&self, label: Option<&String>, is_continue: bool) -> (r: JumpStmtScope)
        requires
            self.st().stack.len() > 0,
        ensures
            r == exits_which_scope(
                self.st(),
                match label {
                    Some(l) => Some(l@),
                    None => None,
                },
                is_continue,
            ),
    {
        if let Some(l) = label {
            return self.label_exits_which_scope(l);
        }
        proof {
            lemma_scopes_view(self.label_scope.stack@);
        }
        let current_scope = self.label_scope.get();
        let ghost stackv = self.st().stack;
        proof {
            assert(scope_view(self.label_scope.stack@.last()) == stackv.last());
        }
        if current_scope.is_target {
            if is_continue && !matches!(current_scope.kind, LabelScopeKind::Loop) {
                // The continue is in the target scope, but the target is not
                // a loop: the continue exits the closest loop, which must be
                // a parent scope.
                return JumpStmtScope::Parent;
            }
            if matches!(current_scope.kind, LabelScopeKind::NonBreakable) {
                // The target scope is not breakable.
                return JumpStmtScope::Parent;
            }
            return JumpStmtScope::Target;
        }
        if is_continue && !matches!(current_scope.kind, LabelScopeKind::Loop) {
            // A continue is not valid in the current scope: the nearest
            // enclosing loop decides.
            let mut i = self.label_scope.size();
            proof {
                assert(stackv.subrange(0, stackv.len() as int) =~= stackv);
            }
            while i > 0
                invariant
                    i <= stackv.len(),
                    nearest_loop_scope(stackv.subrange(0, i as int)) == nearest_loop_scope(stackv),
                decreases i,
            {
                i = i - 1;
                proof {
                    assert(stackv.subrange(0, i + 1).last() == stackv[i as int]);
                    assert(stackv.subrange(0, i + 1).drop_last() =~= stackv.subrange(0, i as int));
                }
                let sc = &self.label_scope.stack[i];
                proof {
                    assert(scope_view(*sc) == stackv[i as int]);
                }
                if matches!(sc.kind, LabelScopeKind::Loop) {
                    if sc.is_target {
                        return JumpStmtScope::Target;
                    }
                    return JumpStmtScope::Nested;
                }
            }
            proof {
                assert(stackv.subrange(0, 0) =~= Seq::<ScopeV>::empty());
            }
            // No loop found: the continue targets a parent scope.
            return JumpStmtScope::Parent;
        }
        JumpStmtScope::Nested
    }

    /// Walks one statement, counting the jumps in it.
    #[verifier::rlimit(100)]
    #[verifier::spinoff_prover]
    fn visit_stmt(&mut self, s: &Stmt, pending_label: Option<String>)
        requires
            old(self).st().stack.len() > 0,
            old(self).counts_wf(),
            old(self).counts().plus(cl_stmt(stmt_view(*s), old(self).st())).fits(),
            old(self).try_block_scope + try_count(stmt_view(*s)) <= u32::MAX,
        ensures
            final(self).st() == old(self).st(),
            final(self).counts() == old(self).counts().plus(cl_stmt(stmt_view(*s), old(self).st())),
            final(self).counts_wf(),
            final(self).is_loop_stmt == old(self).is_loop_stmt,
            final(self).is_breakable_stmt == old(self).is_breakable_stmt,
        decreases *s, 1nat,
    {
        let ghost st0 = self.st();
        let ghost c0 = self.counts();
        let ghost d = cl_stmt(stmt_view(*s), st0);
        match s {
            Stmt::Block(stmts) => {
                self.visit_stmts(stmts);
            },
            Stmt::Labeled(_, _) => {
                self.visit_labeled_stmt(s, Ghost(st0));
            },
            Stmt::If(cons, alt) => {
                let ghost cv = stmt_view(**cons);
                proof {
                    lemma_cl_singleton(cv, st0);
                }
                self.visit_stmt(cons, None);
                match alt {
                    Some(a) => {
                        let ghost av = stmt_view(**a);
                        proof {
                            lemma_cl_singleton(av, st0);
                            lemma_plus_assoc(c0, cl_stmt(cv, st0), cl_stmt(av, st0));
                            assert(d == cl_stmt(cv, st0).plus(cl_stmt(av, st0)));
                        }
                        self.visit_stmt(a, None);
                    },
                    None => {
                        proof {
                            lemma_plus_zero(cl_stmt(cv, st0));
                            assert(d == cl_stmt(cv, st0));
                        }
                    },
                }
            },
            Stmt::For(body) => {
                self.visit_loop_body(body, pending_label, Ghost(st0));
            },
            Stmt::ForIn(body) => {
                self.visit_loop_body(body, pending_label, Ghost(st0));
            },
            Stmt::ForOf(body) => {
                self.visit_loop_body(body, pending_label, Ghost(st0));
            },
            Stmt::While(body) => {
                self.visit_loop_body(body, pending_label, Ghost(st0));
            },
            Stmt::DoWhile(body) => {
                self.visit_loop_body(body, pending_label, Ghost(st0));
            },
            Stmt::Switch(cases) => {
                self.enter_label_scope(LabelScopeKind::Switch, pending_label);
                proof {
                    assert(self.st() =~= enter_scope(st0, LabelScopeKind::Switch));
                }
                self.visit_cases(cases);
                self.exit_label_scope();
                proof {
                    assert(self.st().stack =~= st0.stack);
                    assert(self.st() =~= st0);
                }
            },
            Stmt::Try(_, _, _) => {
                self.visit_try_stmt(s, Ghost(st0));
            },
            Stmt::Break(label) => {
                let scope = self.exits_which_scope(label.as_ref(), false);
                self.breaks.bump(scope);
            },
            Stmt::Continue(label) => {
                let scope = self.exits_which_scope(label.as_ref(), true);
                self.continues.bump(scope);
            },
            Stmt::Throw => {
                let scope = if self.try_block_scope == 0 {
                    // In the target scope itself: only a try block target
                    // catches the throw.
                    if self.is_try_block {
                        JumpStmtScope::Target
                    } else {
                        JumpStmtScope::Parent
                    }
                } else {
                    // A try block inside the target will catch it.
                    JumpStmtScope::Nested
                };
                self.throws.bump(scope);
            },
            Stmt::Return(_) => {
                // A return always exits the target scope.
                self.returns.bump(JumpStmtScope::Target);
            },
            Stmt::Assign(_, _) => {
                proof {
                    lemma_plus_zero(c0);
                }
            },
            Stmt::Other => {
                proof {
                    lemma_plus_zero(c0);
                }
            },
        }
    }

    /// Walks a labeled statement: declares its label, walks the body under
    /// the scope that carries the label, and takes the label back out of
    /// scope.
    #[verifier::rlimit(100)]
    #[verifier::spinoff_prover]
    fn visit_labeled_stmt(&mut self, s: &Stmt, Ghost(st0): Ghost<ClState>)
        requires
            s is Labeled,
            old(self).st() == st0,
            st0.stack.len() > 0,
            old(self).counts_wf(),
            old(self).counts().plus(cl_stmt(stmt_view(*s), st0)).fits(),
            old(self).try_block_scope + try_count(stmt_view(*s)) <= u32::MAX,
        ensures
            final(self).st() == st0,
            final(self).counts() == old(self).counts().plus(cl_stmt(stmt_view(*s), st0)),
            final(self).counts_wf(),
            final(self).is_loop_stmt == old(self).is_loop_stmt,
            final(self).is_breakable_stmt == old(self).is_breakable_stmt,
        decreases *s, 0nat,
    {
        let ghost d = cl_stmt(stmt_view(*s), st0);
        match s {
            Stmt::Labeled(label, body) => {
                let ghost bv = stmt_view(**body);
                let ghost labels0 = self.labels_defined@;
                let ghost st_l = ClState { labels: st0.labels.push(label@), ..st0 };
                self.labels_defined.push(label.clone());
                proof {
                    lemma_labels_view(self.labels_defined@);
                    lemma_labels_view(labels0);
                    assert(labels_view(self.labels_defined@) =~= labels_view(labels0).push(label@));
                    assert(self.st() =~= st_l);
                }
                let kind = LabelScopeKind::from_stmt(body);
                if matches!(kind, LabelScopeKind::NonBreakable) {
                    proof {
                        lemma_cl_singleton(bv, enter_scope(st_l, LabelScopeKind::Labeled));
                        assert(d == cl_stmt(bv, enter_scope(st_l, LabelScopeKind::Labeled)));
                    }
                    self.enter_label_scope(LabelScopeKind::Labeled, Some(label.clone()));
                    proof {
                        assert(self.st() =~= enter_scope(st_l, LabelScopeKind::Labeled));
                    }
                    self.visit_stmt(body, None);
                    self.exit_label_scope();
                    proof {
                        assert(self.st().stack =~= st_l.stack);
                        assert(self.st() =~= st_l);
                    }
                } else {
                    // The body opens its own scope, which carries this
                    // label; entering another here would double-count.
                    proof {
                        lemma_cl_singleton(bv, st_l);
                        assert(d == cl_stmt(bv, st_l));
                    }
                    self.visit_stmt(body, Some(label.clone()));
                }
                let ghost pre_pop = self.labels_defined@;
                let _ = self.labels_defined.pop();
                proof {
                    lemma_labels_view(pre_pop);
                    lemma_labels_view(self.labels_defined@);
                    assert(self.labels_defined@ =~= pre_pop.drop_last());
                    assert(labels_view(self.labels_defined@) =~= labels_view(pre_pop).drop_last());
                    assert(labels_view(pre_pop) == st_l.labels);
                    assert(labels_view(self.labels_defined@) =~= st0.labels);
                    assert(self.st() =~= st0);
                }
            },
            _ => {
                proof {
                    assert(false);
                }
            },
        }
    }

    /// Walks a try statement: the try block first, under an incremented
    /// try-block depth, then the handler and the finalizer at the original
    /// depth.
    #[verifier::rlimit(100)]
    #[verifier::spinoff_prover]
    fn visit_try_stmt(&mut self, s: &Stmt, Ghost(st0): Ghost<ClState>)
        requires
            s is Try,
            old(self).st() == st0,
            st0.stack.len() > 0,
            old(self).counts_wf(),
            old(self).counts().plus(cl_stmt(stmt_view(*s), st0)).fits(),
            old(self).try_block_scope + try_count(stmt_view(*s)) <= u32::MAX,
        ensures
            final(self).st() == st0,
            final(self).counts() == old(self).counts().plus(cl_stmt(stmt_view(*s), st0)),
            final(self).counts_wf(),
            final(self).is_loop_stmt == old(self).is_loop_stmt,
            final(self).is_breakable_stmt == old(self).is_breakable_stmt,
        decreases *s, 0nat,
    {
        let ghost d = cl_stmt(stmt_view(*s), st0);
        let ghost c0 = self.counts();
        match s {
            Stmt::Try(block, handler, finalizer) => {
                let ghost st1 = ClState { try_depth: st0.try_depth + 1, ..st0 };
                let ghost inner = cl_list(stmts_view(block@), st1);
                let ghost hd = match *handler {
                    Some(ref hs) => cl_list(stmts_view(hs@), st0),
                    None => GCounts::zero(),
                };
                let ghost fd = match *finalizer {
                    Some(ref fs) => cl_list(stmts_view(fs@), st0),
                    None => GCounts::zero(),
                };
                proof {
                    assert(d == inner.plus(hd).plus(fd));
                    lemma_plus_assoc(c0, inner, hd);
                    lemma_plus_assoc(c0, inner.plus(hd), fd);
                }
                self.try_block_scope = self.try_block_scope + 1;
                proof {
                    assert(self.st() =~= st1);
                }
                self.visit_stmts(block);
                self.try_block_scope = self.try_block_scope - 1;
                proof {
                    assert(self.st() =~= st0);
                }
                match handler {
                    Some(h) => {
                        self.visit_stmts(h);
                    },
                    None => {
                        proof {
                            lemma_plus_zero(c0.plus(inner));
                        }
                    },
                }
                match finalizer {
                    Some(f) => {
                        self.visit_stmts(f);
                    },
                    None => {
                        proof {
                            lemma_plus_zero(c0.plus(inner).plus(hd));
                        }
                    },
                }
            },
            _ => {
                proof {
                    assert(false);
                }
            },
        }
    }

    /// Walks a loop's body under a fresh loop scope.
    fn visit_loop_body(
        &mut self,
        body: &Box<Stmt>,
        pending_label: Option<String>,
        Ghost(st0): Ghost<ClState>,
    )
        requires
            old(self).st() == st0,
            st0.stack.len() > 0,
            old(self).counts_wf(),
            old(self).counts().plus(
                cl_list(seq![stmt_view(**body)], enter_scope(st0, LabelScopeKind::Loop)),
            ).fits(),
            old(self).try_block_scope + try_count_list(seq![stmt_view(**body)]) <= u32::MAX,
        ensures
            final(self).st() == st0,
            final(self).counts() == old(self).counts().plus(
                cl_list(seq![stmt_view(**body)], enter_scope(st0, LabelScopeKind::Loop)),
            ),
            final(self).counts_wf(),
            final(self).is_loop_stmt == old(self).is_loop_stmt,
            final(self).is_breakable_stmt == old(self).is_breakable_stmt,
        decreases **body, 2nat,
    {
        proof {
            lemma_cl_singleton(stmt_view(**body), enter_scope(st0, LabelScopeKind::Loop));
        }
        self.enter_label_scope(LabelScopeKind::Loop, pending_label);
        proof {
            assert(self.st() =~= enter_scope(st0, LabelScopeKind::Loop));
        }
        self.visit_stmt(body, None);
        self.exit_label_scope();
        proof {
            assert(self.st().stack =~= st0.stack);
            assert(self.st() =~= st0);
        }
    }

    /// Walks each statement of a list.
    #[verifier::loop_isolation(false)]
    #[verifier::rlimit(60)]
    fn visit_stmts(&mut self, stmts: &Vec<Stmt>)
        requires
            old(self).st().stack.len() > 0,
            old(self).counts_wf(),
            old(self).counts().plus(cl_list(stmts_view(stmts@), old(self).st())).fits(),
            old(self).try_block_scope + try_count_list(stmts_view(stmts@)) <= u32::MAX,
        ensures
            final(self).st() == old(self).st(),
            final(self).counts() == old(self).counts().plus(
                cl_list(stmts_view(stmts@), old(self).st()),
            ),
            final(self).counts_wf(),
            final(self).is_loop_stmt == old(self).is_loop_stmt,
            final(self).is_breakable_stmt == old(self).is_breakable_stmt,
        decreases stmts@, 3nat,
    {
        let ghost st0 = old(self).st();
        let ghost views = stmts_view(stmts@);
        let ghost n = views.len() as int;
        proof {
            lemma_stmts_view(stmts@);
            assert(views.subrange(0, n) =~= views);
        }
        let mut i: usize = 0;
        while i < stmts.len()
            invariant
                i <= stmts@.len(),
                self.st() == st0,
                self.counts_wf(),
                self.is_loop_stmt == old(self).is_loop_stmt,
                self.is_breakable_stmt == old(self).is_breakable_stmt,
                old(self).counts().plus(cl_list(views, st0)) == self.counts().plus(
                    cl_list(views.subrange(i as int, n), st0),
                ),
                self.try_block_scope + try_count_list(views.subrange(i as int, n)) <= u32::MAX,
            decreases stmts@.len() - i,
        {
            proof {
                lemma_cl_list_step(views, st0, i as int);
                lemma_try_count_list_step(views, i as int);
            }
            self.visit_stmt(&stmts[i], None);
            i = i + 1;
        }
        proof {
            assert(views.subrange(n, n) =~= Seq::<StmtV>::empty());
            lemma_plus_zero(self.counts());
        }
    }

    /// Walks each arm of a switch.
    #[verifier::loop_isolation(false)]
    #[verifier::rlimit(60)]
    fn visit_cases(&mut self, cases: &Vec<SwitchCase>)
        requires
            old(self).st().stack.len() > 0,
            old(self).counts_wf(),
            old(self).counts().plus(cl_cases(cases_view(cases@), old(self).st())).fits(),
            old(self).try_block_scope + try_count_cases(cases_view(cases@)) <= u32::MAX,
        ensures
            final(self).st() == old(self).st(),
            final(self).counts() == old(self).counts().plus(
                cl_cases(cases_view(cases@), old(self).st()),
            ),
            final(self).counts_wf(),
            final(self).is_loop_stmt == old(self).is_loop_stmt,
            final(self).is_breakable_stmt == old(self).is_breakable_stmt,
        decreases cases@, 3nat,
    {
        let ghost st0 = old(self).st();
        let ghost views = cases_view(cases@);
        let ghost n = views.len() as int;
        proof {
            lemma_cases_view(cases@);
            assert(views.subrange(0, n) =~= views);
        }
        let mut i: usize = 0;
        while i < cases.len()
            invariant
                i <= cases@.len(),
                self.st() == st0,
                self.counts_wf(),
                self.is_loop_stmt == old(self).is_loop_stmt,
                self.is_breakable_stmt == old(self).is_breakable_stmt,
                old(self).counts().plus(cl_cases(views, st0)) == self.counts().plus(
                    cl_cases(views.subrange(i as int, n), st0),
                ),
                self.try_block_scope + try_count_cases(views.subrange(i as int, n)) <= u32::MAX,
            decreases cases@.len() - i,
        {
            proof {
                lemma_cl_cases_step(views, st0, i as int);
                lemma_try_count_cases_step(views, i as int);
            }
            let case = &cases[i];
            proof {
                assert(views[i as int] == case_view(cases@[i as int]));
                assert(views[i as int].cons == stmts_view(case.cons@));
            }
            self.visit_stmts(&case.cons);
            i = i + 1;
        }
        proof {
            assert(views.subrange(n, n) =~= Seq::<CaseV>::empty());
            lemma_plus_zero(self.counts());
        }
    }
}

/// Analyzes the control flow of a target node: a loop, switch, labeled
/// statement or try statement.
///
/// The counts reported are exactly the classification of every jump in the
/// target, and each count's total is the sum of its three classes.  The
/// counters are sixteen bits wide, so the caller must not hand in a target
/// with more jumps of one kind than such a counter holds.
pub fn analyze_flow(node: &Stmt) -> (r: FlowAnalyzer)
    requires
        is_flow_target(stmt_view(*node)),
        cl_target(stmt_view(*node)).fits(),
        try_count(stmt_view(*node)) <= u32::MAX,
    ensures
        r.counts() == cl_target(stmt_view(*node)),
        r.counts_wf(),
        r.returns.total == cl_target(stmt_view(*node)).ret.total(),
        r.breaks.total == cl_target(stmt_view(*node)).brk.total(),
        r.continues.total == cl_target(stmt_view(*node)).cont.total(),
        r.throws.total == cl_target(stmt_view(*node)).thr.total(),
        r.is_breakable_stmt == (is_loop_stmt_v(stmt_view(*node)) || stmt_view(*node) is Labeled
            || stmt_view(*node) is Switch),
{
    match node {
        Stmt::Labeled(label, body) => analyze_labeled_target(node, label, body),
        Stmt::Switch(cases) => analyze_switch_target(node, cases),
        Stmt::Try(_, _, _) => analyze_try_target(node),
        Stmt::For(body) => analyze_loop_target(node, body),
        Stmt::ForIn(body) => analyze_loop_target(node, body),
        Stmt::ForOf(body) => analyze_loop_target(node, body),
        Stmt::While(body) => analyze_loop_target(node, body),
        Stmt::DoWhile(body) => analyze_loop_target(node, body),
        _ => vstd::pervasive::unreached(),
    }
}

/// Analyzes a labeled target: the body is walked under the combined scope
/// that carries the target's label.
#[verifier::rlimit(60)]
fn analyze_labeled_target(node: &Stmt, label: &String, body: &Box<Stmt>) -> (r: FlowAnalyzer)
    requires
        *node == Stmt::Labeled(*label, *body),
        cl_target(stmt_view(*node)).fits(),
        try_count(stmt_view(*node)) <= u32::MAX,
    ensures
        r.counts() == cl_target(stmt_view(*node)),
        r.counts_wf(),
        r.is_breakable_stmt,
        r.target_label matches Some(l) && l@ == label@,
{
    let ghost v = stmt_view(*node);
    let ghost bv = stmt_view(**body);
    let ghost st0 = init_state(
        ScopeV { kind: LabelScopeKind::Labeled, is_target: true },
        Some(label@),
        false,
    );
    let mut a = FlowAnalyzer::fresh(
        LabelScope { kind: LabelScopeKind::Labeled, label: Some(label.clone()), is_target: true },
        Some(label.clone()),
        false,
    );
    a.is_breakable_stmt = true;
    a.is_loop_stmt = is_loop_stmt(body);
    proof {
        assert(v == StmtV::Labeled { label: label@, body: seq![bv] });
        assert(a.st() =~= st0);
        lemma_cl_singleton(bv, st0);
        assert(cl_target(v) == cl_stmt(bv, st0));
        lemma_plus_zero(cl_stmt(bv, st0));
    }
    a.visit_stmt(body, None);
    proof {
        lemma_plus_zero(cl_target(v));
    }
    a
}

/// Analyzes a switch target: each arm walked under the switch's own target
/// scope.
#[verifier::rlimit(60)]
fn analyze_switch_target(node: &Stmt, cases: &Vec<SwitchCase>) -> (r: FlowAnalyzer)
    requires
        *node == Stmt::Switch(*cases),
        cl_target(stmt_view(*node)).fits(),
        try_count(stmt_view(*node)) <= u32::MAX,
    ensures
        r.counts() == cl_target(stmt_view(*node)),
        r.counts_wf(),
        r.is_breakable_stmt,
        !r.is_loop_stmt,
{
    let ghost v = stmt_view(*node);
    let ghost st0 = init_state(ScopeV { kind: LabelScopeKind::Switch, is_target: true }, None, false);
    let mut a = FlowAnalyzer::fresh(
        LabelScope { kind: LabelScopeKind::Switch, label: None, is_target: true },
        None,
        false,
    );
    a.is_breakable_stmt = true;
    proof {
        assert(v == StmtV::Switch { cases: cases_view(cases@) });
        assert(a.st() =~= st0);
        assert(cl_target(v) == cl_cases(cases_view(cases@), st0));
        lemma_plus_zero(cl_cases(cases_view(cases@), st0));
    }
    a.visit_cases(cases);
    proof {
        lemma_plus_zero(cl_target(v));
    }
    a
}

/// Analyzes a try target: the try block walked first, marked as the
/// target's own block, then the handler and the finalizer.
#[verifier::rlimit(100)]
#[verifier::spinoff_prover]
fn analyze_try_target(node: &Stmt) -> (r: FlowAnalyzer)
    requires
        node is Try,
        cl_target(stmt_view(*node)).fits(),
        try_count(stmt_view(*node)) <= u32::MAX,
    ensures
        r.counts() == cl_target(stmt_view(*node)),
        r.counts_wf(),
        !r.is_breakable_stmt,
        !r.is_loop_stmt,
{
    let ghost v = stmt_view(*node);
    match node {
        Stmt::Try(block, handler, finalizer) => {
            let ghost scope = ScopeV { kind: LabelScopeKind::NonBreakable, is_target: true };
            let ghost st_t = init_state(scope, None, true);
            let ghost st_h = init_state(scope, None, false);
            let ghost inner = cl_list(stmts_view(block@), st_t);
            let ghost hd = match *handler {
                Some(ref hs) => cl_list(stmts_view(hs@), st_h),
                None => GCounts::zero(),
            };
            let ghost fd = match *finalizer {
                Some(ref fs) => cl_list(stmts_view(fs@), st_h),
                None => GCounts::zero(),
            };
            let mut a = FlowAnalyzer::fresh(
                LabelScope { kind: LabelScopeKind::NonBreakable, label: None, is_target: true },
                None,
                true,
            );
            proof {
                assert(a.st() =~= st_t);
                assert(cl_target(v) == inner.plus(hd).plus(fd));
                lemma_plus_zero(inner);
                lemma_plus_assoc(GCounts::zero(), inner, hd);
                lemma_plus_assoc(GCounts::zero(), inner.plus(hd), fd);
            }
            a.visit_stmts(block);
            a.is_try_block = false;
            proof {
                assert(a.st() =~= st_h);
            }
            match handler {
                Some(h) => {
                    a.visit_stmts(h);
                },
                None => {
                    proof {
                        lemma_plus_zero(GCounts::zero().plus(inner));
                    }
                },
            }
            match finalizer {
                Some(f) => {
                    a.visit_stmts(f);
                },
                None => {
                    proof {
                        lemma_plus_zero(GCounts::zero().plus(inner).plus(hd));
                    }
                },
            }
            proof {
                lemma_plus_zero(cl_target(v));
                assert(a.counts() == cl_target(v));
            }
            a
        },
        _ => vstd::pervasive::unreached(),
    }
}

/// Analyzes a loop target: its body walked under the loop's own target
/// scope.
#[verifier::rlimit(60)]
fn analyze_loop_target(node: &Stmt, body: &Box<Stmt>) -> (r: FlowAnalyzer)
    requires
        is_loop_stmt_v(stmt_view(*node)),
        loop_body_view(stmt_view(*node)) == seq![stmt_view(**body)],
        cl_target(stmt_view(*node)).fits(),
        try_count(stmt_view(*node)) == try_count_list(seq![stmt_view(**body)]),
        try_count(stmt_view(*node)) <= u32::MAX,
    ensures
        r.counts() == cl_target(stmt_view(*node)),
        r.counts_wf(),
        r.is_breakable_stmt,
        r.is_loop_stmt,
{
    let ghost v = stmt_view(*node);
    let ghost bv = stmt_view(**body);
    let ghost st0 = init_state(ScopeV { kind: LabelScopeKind::Loop, is_target: true }, None, false);
    let mut a = FlowAnalyzer::fresh(
        LabelScope { kind: LabelScopeKind::Loop, label: None, is_target: true },
        None,
        false,
    );
    a.is_breakable_stmt = true;
    a.is_loop_stmt = true;
    proof {
        assert(a.st() =~= st0);
        lemma_cl_singleton(bv, st0);
        assert(cl_target(v) == cl_stmt(bv, st0));
        lemma_plus_zero(cl_stmt(bv, st0));
    }
    a.visit_stmt(body, None);
    proof {
        lemma_plus_zero(cl_target(v));
    }
    a
}

/// The body sequence of a loop shape.
pub open spec fn loop_body_view(v: StmtV) -> Seq<StmtV> {
    match v {
        StmtV::For { body } => body,
        StmtV::ForIn { body } => body,
        StmtV::ForOf { body } => body,
        StmtV::While { body } => body,
        StmtV::DoWhile { body } => body,
        _ => Seq::empty(),
    }
}

} // verus!
