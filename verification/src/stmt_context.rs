//! The statement-context model: the node-kind enumeration, the flag set
//! recording flow facts, and the context tree that the block analyzer builds.

use vstd::prelude::*;

verus! {

/// The kind of a statement-context node.  Exactly one kind is assigned to a
/// node before it is queried.
#[derive(Clone, Copy, Debug, PartialEq, Eq, Structural)]
pub enum StmtType {
    Unknown,
    // Block-like.
    Block,
    Labeled,
    /// The block statement of the body handed to the analyzer.
    TopLevel,
    // Control flow.
    If,
    // Loops.
    For,
    ForIn,
    ForOf,
    While,
    DoWhile,
    // Switch-like.
    Switch,
    SwitchCase,
    SwitchDefault,
    // Try-like.
    Try,
    TryBlock,
    TryCatch,
    TryFinally,
    // Jumps.
    Break,
    Continue,
    Throw,
    Return,
}

impl Default for StmtType {
    fn default() -> (r: StmtType)
        ensures
            r == StmtType::Unknown,
    {
        StmtType::Unknown
    }
}

/// The set of flow facts known about one statement-context node.
///
/// `always_returns` and `falls_through` are never both set by the analyzer:
/// every transition that sets one clears the other.  `no_flow_impact` is
/// terminal: the analyzer adds no further flag to such a node.
#[derive(Clone, Copy, Debug, PartialEq, Eq, Structural)]
pub struct Flags {
    /// The statement does not affect the control flow of the analyzed body.
    pub no_flow_impact: bool,
    /// A `return` statement occurs somewhere in the statement.
    pub returns: bool,
    /// A `break` statement occurs somewhere in the statement.
    pub breaks: bool,
    /// A `continue` statement occurs somewhere in the statement.
    pub continues: bool,
    /// A `throw` statement occurs somewhere in the statement.
    pub throws: bool,
    /// Every path through the statement, once entered, ends in a return.
    pub always_returns: bool,
    /// The statement returns somewhere, but some path may finish without
    /// encountering a return.
    pub falls_through: bool,
}

impl Default for Flags {
    fn default() -> (r: Flags)
        ensures
            r == Flags::empty(),
    {
        Flags {
            no_flow_impact: false,
            returns: false,
            breaks: false,
            continues: false,
            throws: false,
            always_returns: false,
            falls_through: false,
        }
    }
}

impl Flags {
    /// The flag set with no flag set.
    pub open spec fn empty() -> Flags {
        Flags {
            no_flow_impact: false,
            returns: false,
            breaks: false,
            continues: false,
            throws: false,
            always_returns: false,
            falls_through: false,
        }
    }

    /// The union of two flag sets.
    pub open spec fn spec_union(self, other: Flags) -> Flags {
        Flags {
            no_flow_impact: self.no_flow_impact || other.no_flow_impact,
            returns: self.returns || other.returns,
            breaks: self.breaks || other.breaks,
            continues: self.continues || other.continues,
            throws: self.throws || other.throws,
            always_returns: self.always_returns || other.always_returns,
            falls_through: self.falls_through || other.falls_through,
        }
    }

    /// The intersection of two flag sets.
    pub open spec fn spec_intersection(self, other: Flags) -> Flags {
        Flags {
            no_flow_impact: self.no_flow_impact && other.no_flow_impact,
            returns: self.returns && other.returns,
            breaks: self.breaks && other.breaks,
            continues: self.continues && other.continues,
            throws: self.throws && other.throws,
            always_returns: self.always_returns && other.always_returns,
            falls_through: self.falls_through && other.falls_through,
        }
    }

    /// The flags of `self` with every flag of `other` cleared.
    pub open spec fn spec_remove(self, other: Flags) -> Flags {
        Flags {
            no_flow_impact: self.no_flow_impact && !other.no_flow_impact,
            returns: self.returns && !other.returns,
            breaks: self.breaks && !other.breaks,
            continues: self.continues && !other.continues,
            throws: self.throws && !other.throws,
            always_returns: self.always_returns && !other.always_returns,
            falls_through: self.falls_through && !other.falls_through,
        }
    }

    /// Whether every flag set in `other` is also set in `self`.
    pub open spec fn spec_has(self, other: Flags) -> bool {
        &&& (other.no_flow_impact ==> self.no_flow_impact)
        &&& (other.returns ==> self.returns)
        &&& (other.breaks ==> self.breaks)
        &&& (other.continues ==> self.continues)
        &&& (other.throws ==> self.throws)
        &&& (other.always_returns ==> self.always_returns)
        &&& (other.falls_through ==> self.falls_through)
    }

    /// Whether some flag set in `other` is also set in `self`.
    pub open spec fn spec_has_any(self, other: Flags) -> bool {
        ||| (other.no_flow_impact && self.no_flow_impact)
        ||| (other.returns && self.returns)
        ||| (other.breaks && self.breaks)
        ||| (other.continues && self.continues)
        ||| (other.throws && self.throws)
        ||| (other.always_returns && self.always_returns)
        ||| (other.falls_through && self.falls_through)
    }

    /// A set with only `no_flow_impact`.
    pub fn no_flow_impact() -> (r: Flags)
        ensures
            r == (Flags { no_flow_impact: true, ..Flags::empty() }),
    {
        let mut f = Flags::default();
        f.no_flow_impact = true;
        f
    }

    /// A set with only `returns`.
    pub fn returns_flag() -> (r: Flags)
        ensures
            r == (Flags { returns: true, ..Flags::empty() }),
    {
        let mut f = Flags::default();
        f.returns = true;
        f
    }

    /// A set with only `breaks`.
    pub fn breaks() -> (r: Flags)
        ensures
            r == (Flags { breaks: true, ..Flags::empty() }),
    {
        let mut f = Flags::default();
        f.breaks = true;
        f
    }

    /// A set with only `continues`.
    pub fn continues() -> (r: Flags)
        ensures
            r == (Flags { continues: true, ..Flags::empty() }),
    {
        let mut f = Flags::default();
        f.continues = true;
        f
    }

    /// A set with only `throws`.
    pub fn throws() -> (r: Flags)
        ensures
            r == (Flags { throws: true, ..Flags::empty() }),
    {
        let mut f = Flags::default();
        f.throws = true;
        f
    }

    /// A set with only `always_returns`.
    pub fn always_returns() -> (r: Flags)
        ensures
            r == (Flags { always_returns: true, ..Flags::empty() }),
    {
        let mut f = Flags::default();
        f.always_returns = true;
        f
    }

    /// A set with only `falls_through`.
    pub fn falls_through() -> (r: Flags)
        ensures
            r == (Flags { falls_through: true, ..Flags::empty() }),
    {
        let mut f = Flags::default();
        f.falls_through = true;
        f
    }

    /// The mask of the four jump flags: returns, breaks, continues, throws.
    pub fn has_return_like() -> (r: Flags)
        ensures
            r == Flags::spec_has_return_like(),
    {
        let mut f = Flags::default();
        f.returns = true;
        f.breaks = true;
        f.continues = true;
        f.throws = true;
        f
    }

    /// The jump-flag mask, as a spec value.
    pub open spec fn spec_has_return_like() -> Flags {
        Flags {
            returns: true,
            breaks: true,
            continues: true,
            throws: true,
            ..Flags::empty()
        }
    }

    /// The non-mutating union of two flag sets.
    pub fn union(self, other: Flags) -> (r: Flags)
        ensures
            r == self.spec_union(other),
    {
        let mut f = self;
        f.add(other);
        f
    }

    /// Adds, under the given mask, all set flags of another set.
    /// Without a mask, adds all of them.
    pub fn add_from(&mut self, other: &Flags, mask: Option<Flags>)
        ensures
            *final(self) == match mask {
                Some(m) => old(self).spec_union(other.spec_intersection(m)),
                None => old(self).spec_union(*other),
            },
    {
        match mask {
            Some(m) => {
                self.no_flow_impact = self.no_flow_impact || (other.no_flow_impact
                    && m.no_flow_impact);
                self.returns = self.returns || (other.returns && m.returns);
                self.breaks = self.breaks || (other.breaks && m.breaks);
                self.continues = self.continues || (other.continues && m.continues);
                self.throws = self.throws || (other.throws && m.throws);
                self.always_returns = self.always_returns || (other.always_returns
                    && m.always_returns);
                self.falls_through = self.falls_through || (other.falls_through
                    && m.falls_through);
            },
            None => {
                let o = *other;
                self.add(o);
            },
        }
    }

    /// Adds every flag set in `other`.
    pub fn add(&mut self, other: Flags)
        ensures
            *final(self) == old(self).spec_union(other),
    {
        self.no_flow_impact = self.no_flow_impact || other.no_flow_impact;
        self.returns = self.returns || other.returns;
        self.breaks = self.breaks || other.breaks;
        self.continues = self.continues || other.continues;
        self.throws = self.throws || other.throws;
        self.always_returns = self.always_returns || other.always_returns;
        self.falls_through = self.falls_through || other.falls_through;
    }

    /// Clears every flag set in `other`.
    pub fn rem(&mut self, other: Flags)
        ensures
            *final(self) == old(self).spec_remove(other),
    {
        self.no_flow_impact = self.no_flow_impact && !other.no_flow_impact;
        self.returns = self.returns && !other.returns;
        self.breaks = self.breaks && !other.breaks;
        self.continues = self.continues && !other.continues;
        self.throws = self.throws && !other.throws;
        self.always_returns = self.always_returns && !other.always_returns;
        self.falls_through = self.falls_through && !other.falls_through;
    }

    /// Whether every flag set in `other` is also set here.
    pub fn has(&self, other: Flags) -> (r: bool)
        ensures
            r == self.spec_has(other),
    {
        (!other.no_flow_impact || self.no_flow_impact)
            && (!other.returns || self.returns)
            && (!other.breaks || self.breaks)
            && (!other.continues || self.continues)
            && (!other.throws || self.throws)
            && (!other.always_returns || self.always_returns)
            && (!other.falls_through || self.falls_through)
    }

    /// Whether some flag set in `other` is also set here.
    pub fn has_any(&self, other: Flags) -> (r: bool)
        ensures
            r == self.spec_has_any(other),
    {
        (other.no_flow_impact && self.no_flow_impact)
            || (other.returns && self.returns)
            || (other.breaks && self.breaks)
            || (other.continues && self.continues)
            || (other.throws && self.throws)
            || (other.always_returns && self.always_returns)
            || (other.falls_through && self.falls_through)
    }
}

/// The mask `no_flow_impact | falls_through`: a node carrying either is
/// already resolved.
pub open spec fn nfi_ft_mask() -> Flags {
    Flags { no_flow_impact: true, falls_through: true, ..Flags::empty() }
}

/// The mask of the jump flags together with `falls_through`.
pub open spec fn rl_ft_mask() -> Flags {
    Flags { falls_through: true, ..Flags::spec_has_return_like() }
}

/// The mask `breaks | continues`.
pub open spec fn brk_cont_mask() -> Flags {
    Flags { breaks: true, continues: true, ..Flags::empty() }
}

/// The mask `continues | returns | throws`: what a switch inherits from its
/// cases (a break is consumed by the switch).
pub open spec fn cont_ret_thr_mask() -> Flags {
    Flags { continues: true, returns: true, throws: true, ..Flags::empty() }
}

/// Marks a node as possibly falling through, clearing a stale
/// `always_returns`.
pub open spec fn ft_applied(f: Flags) -> Flags {
    Flags { falls_through: true, always_returns: false, ..f }
}

/// Marks a node as flow-neutral, clearing a stale `always_returns`.
pub open spec fn nfi_applied(f: Flags) -> Flags {
    Flags { no_flow_impact: true, always_returns: false, ..f }
}

/// The context recorded for one statement: its kind, the flow facts known
/// about it, and the contexts of its children.  An `if` keeps the contexts
/// of its two branches in `then_stmts` / `else_stmts` and leaves `children`
/// empty.
#[derive(Debug)]
pub struct StmtCtx {
    pub kind: StmtType,
    pub flags: Flags,
    /// The contexts of the flow-relevant child statements.
    pub children: Vec<StmtCtx>,
    /// The label of the labeled statement this context belongs to, if any.
    pub label: Option<String>,
    /// Only used for kind `StmtType::If`.
    pub then_stmts: Option<Vec<StmtCtx>>,
    /// Only used for kind `StmtType::If`.
    pub else_stmts: Option<Vec<StmtCtx>>,
}

/// The mathematical shape of a statement context.
#[verifier::ext_equal]
pub ghost struct CtxV {
    pub kind: StmtType,
    pub flags: Flags,
    pub children: Seq<CtxV>,
    pub label: Option<Seq<char>>,
    pub then_stmts: Option<Seq<CtxV>>,
    pub else_stmts: Option<Seq<CtxV>>,
}

/// The shape of one context node.
pub open spec fn ctx_view(c: StmtCtx) -> CtxV
    decreases c,
{
    CtxV {
        kind: c.kind,
        flags: c.flags,
        children: ctxs_view(c.children@),
        label: match c.label {
            Some(l) => Some(l@),
            None => None,
        },
        then_stmts: match c.then_stmts {
            Some(t) => Some(ctxs_view(t@)),
            None => None,
        },
        else_stmts: match c.else_stmts {
            Some(e) => Some(ctxs_view(e@)),
            None => None,
        },
    }
}

/// The shape of a context list.
pub open spec fn ctxs_view(s: Seq<StmtCtx>) -> Seq<CtxV>
    decreases s,
{
    if s.len() == 0 {
        Seq::empty()
    } else {
        ctxs_view(s.drop_last()).push(ctx_view(s.last()))
    }
}

/// A context list's shape is the elementwise shape.
pub broadcast proof fn lemma_ctxs_view(s: Seq<StmtCtx>)
    ensures
        #![trigger ctxs_view(s)]
        ctxs_view(s).len() == s.len(),
        forall|i: int| 0 <= i < s.len() ==> ctxs_view(s)[i] == ctx_view(s[i]),
    decreases s,
{
    if s.len() > 0 {
        lemma_ctxs_view(s.drop_last());
    }
}

/// Whether a child context matters for the analysis of its parent.
pub open spec fn ctx_keep(c: CtxV) -> bool {
    !c.flags.no_flow_impact
}

/// A context list with the flow-neutral children dropped.
pub open spec fn pruned(s: Seq<CtxV>) -> Seq<CtxV>
    decreases s,
{
    if s.len() == 0 {
        Seq::empty()
    } else {
        let p = pruned(s.drop_last());
        if ctx_keep(s.last()) {
            p.push(s.last())
        } else {
            p
        }
    }
}

/// The union over a context list of each child's flags under a mask.
pub open spec fn union_masked(s: Seq<CtxV>, m: Flags) -> Flags
    decreases s,
{
    if s.len() == 0 {
        Flags::empty()
    } else {
        union_masked(s.drop_last(), m).spec_union(s.last().flags.spec_intersection(m))
    }
}

/// Whether some child has all the flags of the mask.
pub open spec fn child_has(s: Seq<CtxV>, m: Flags) -> bool {
    exists|i: int| 0 <= i < s.len() && s[i].flags.spec_has(m)
}

/// Whether some child has some flag of the mask.
pub open spec fn child_has_any(s: Seq<CtxV>, m: Flags) -> bool {
    exists|i: int| 0 <= i < s.len() && s[i].flags.spec_has_any(m)
}

/// Whether every child has all the flags of the mask.
pub open spec fn children_have(s: Seq<CtxV>, m: Flags) -> bool {
    forall|i: int| 0 <= i < s.len() ==> s[i].flags.spec_has(m)
}

/// Whether some child is a `default:` switch arm.
pub open spec fn has_default_case(s: Seq<CtxV>) -> bool {
    exists|i: int| 0 <= i < s.len() && s[i].kind == StmtType::SwitchDefault
}

/// Whether, as the final statement of a block, this context lets the block
/// fall through: it does not always return, or it is an `if` without an
/// `else` (which silently skips when its condition fails).
pub open spec fn final_stmt_falls_through(c: CtxV) -> bool {
    ||| c.flags.falls_through
    ||| !c.flags.always_returns
    ||| (c.kind == StmtType::If && c.else_stmts is None)
}

/// The flags of an ordered statement sequence, composed from the flags of
/// its (already pruned) members:
/// an empty sequence is flow-neutral; a single non-`if` member passes its
/// flags on verbatim; otherwise the jump and fall-through flags are unioned,
/// and a sequence that returns is `always_returns` exactly when its final
/// member is guaranteed to return.
pub open spec fn block_like_flags(s: Seq<CtxV>) -> Flags {
    if s.len() == 0 {
        Flags { no_flow_impact: true, ..Flags::empty() }
    } else if s.len() == 1 && s[0].kind != StmtType::If {
        s[0].flags
    } else {
        let u = union_masked(s, rl_ft_mask());
        if u.falls_through {
            u
        } else if !u.spec_has_any(Flags::spec_has_return_like()) {
            Flags { no_flow_impact: true, ..u }
        } else if !u.returns {
            u
        } else if final_stmt_falls_through(s.last()) {
            Flags { falls_through: true, ..u }
        } else {
            Flags { always_returns: true, ..u }
        }
    }
}

/// The last child of the given kind, if any.
pub open spec fn try_branch(s: Seq<CtxV>, k: StmtType) -> Option<CtxV>
    decreases s,
{
    if s.len() == 0 {
        None
    } else if s.last().kind == k {
        Some(s.last())
    } else {
        try_branch(s.drop_last(), k)
    }
}

/// Whether an optional try branch exists.
pub open spec fn branch_exists(b: Option<CtxV>) -> bool {
    b is Some
}

/// Whether an optional try branch returns.
pub open spec fn branch_returns(b: Option<CtxV>) -> bool {
    b matches Some(c) && c.flags.returns
}

/// Whether an optional try branch throws.
pub open spec fn branch_throws(b: Option<CtxV>) -> bool {
    b matches Some(c) && c.flags.throws
}

/// Whether an optional try branch always returns.
pub open spec fn branch_always_returns(b: Option<CtxV>) -> bool {
    b matches Some(c) && c.flags.always_returns
}

/// The composition of a block-like node: prune the children, then union the
/// sequence flags in.
pub open spec fn computed_block(v: CtxV) -> CtxV {
    let p = pruned(v.children);
    CtxV { children: p, flags: v.flags.spec_union(block_like_flags(p)), ..v }
}

/// The composition of an `if` node: each branch composed independently,
/// their flags unioned; flow-neutral when neither branch jumps; when both
/// branches exist, `always_returns` only if both branches always return.
pub open spec fn computed_if(v: CtxV) -> CtxV {
    let tp = pruned(v.then_stmts->Some_0);
    let else_exists = v.else_stmts is Some;
    let ep = if else_exists {
        pruned(v.else_stmts->Some_0)
    } else {
        Seq::empty()
    };
    let tf = block_like_flags(tp);
    let ef = if else_exists {
        block_like_flags(ep)
    } else {
        Flags::empty()
    };
    let f1 = v.flags.spec_union(tf.spec_union(ef));
    let v1 = CtxV {
        flags: f1,
        then_stmts: Some(tp),
        else_stmts: if else_exists {
            Some(ep)
        } else {
            None
        },
        ..v
    };
    if !f1.spec_has_any(Flags::spec_has_return_like()) {
        CtxV { flags: nfi_applied(f1), ..v1 }
    } else if f1.falls_through {
        CtxV { flags: ft_applied(f1), ..v1 }
    } else if else_exists && !(tf.always_returns && ef.always_returns) {
        CtxV { flags: ft_applied(f1), ..v1 }
    } else {
        v1
    }
}

/// The composition of a loop node: flow-neutral when no child matters; a
/// loop whose body can return is never provably exhaustive, so it falls
/// through; otherwise the loop consumes the break and continue flags.
pub open spec fn computed_loop(v: CtxV) -> CtxV {
    let p = pruned(v.children);
    if p.len() == 0 {
        CtxV { children: p, flags: nfi_applied(v.flags), ..v }
    } else {
        let f1 = v.flags.spec_union(block_like_flags(p));
        if child_has(p, Flags { returns: true, ..Flags::empty() }) {
            CtxV { children: p, flags: ft_applied(f1), ..v }
        } else {
            CtxV { children: p, flags: f1.spec_remove(brk_cont_mask()), ..v }
        }
    }
}

/// The composition of a switch node: continue, return and throw flags are
/// inherited from the cases while break is consumed; if any case returns, a
/// remaining break or continue forces a fall-through, and the switch always
/// returns only when a default arm exists and every arm always returns.
pub open spec fn computed_switch(v: CtxV) -> CtxV {
    let f1 = v.flags.spec_union(union_masked(v.children, cont_ret_thr_mask()));
    if children_have(v.children, Flags { no_flow_impact: true, ..Flags::empty() }) {
        CtxV { flags: nfi_applied(f1), ..v }
    } else if f1.returns {
        if f1.spec_has_any(brk_cont_mask()) {
            CtxV { flags: ft_applied(f1), ..v }
        } else if !has_default_case(v.children) || !children_have(
            v.children,
            Flags { always_returns: true, ..Flags::empty() },
        ) {
            CtxV { flags: ft_applied(f1), ..v }
        } else {
            CtxV { flags: Flags { always_returns: true, ..f1 }, ..v }
        }
    } else {
        CtxV { flags: f1, ..v }
    }
}

/// The composition of a try node, preserving the precedence of its
/// branches: a finally that always returns masks everything; otherwise, when
/// any branch returns, the try and catch branches must both always return
/// unless the finally alone returns, in which case the finally alone must
/// always return; a try without a catch is assumed to throw.
pub open spec fn computed_try(v: CtxV) -> CtxV {
    let f1 = v.flags.spec_union(union_masked(v.children, brk_cont_mask()));
    let b = try_branch(v.children, StmtType::TryBlock);
    let c = try_branch(v.children, StmtType::TryCatch);
    let f = try_branch(v.children, StmtType::TryFinally);
    if children_have(v.children, Flags { no_flow_impact: true, ..Flags::empty() }) {
        CtxV { flags: nfi_applied(f1), ..v }
    } else {
        let f2 = if branch_returns(b) {
            Flags { returns: true, ..f1 }
        } else {
            f1
        };
        let any_ret = branch_returns(b) || branch_returns(c) || branch_returns(f);
        let only_finally = branch_returns(f) && !(branch_returns(b) || branch_returns(c));
        if any_ret && only_finally && !branch_always_returns(f) {
            CtxV { flags: ft_applied(f2), ..v }
        } else if any_ret && !only_finally && !branch_always_returns(f) && ((!branch_always_returns(
            b,
        ) && branch_exists(b)) || (!branch_always_returns(c) && branch_exists(c))) {
            CtxV { flags: ft_applied(f2), ..v }
        } else {
            let f3 = Flags {
                throws: f2.throws || branch_throws(f),
                returns: f2.returns || branch_returns(f),
                ..f2
            };
            if branch_exists(f) && branch_always_returns(f) {
                CtxV { flags: Flags { always_returns: true, ..f3 }, ..v }
            } else if branch_exists(c) {
                let f4 = Flags {
                    throws: f3.throws || (branch_throws(c) && !branch_always_returns(f)),
                    returns: f3.returns || branch_returns(c),
                    ..f3
                };
                if branch_always_returns(c) && branch_always_returns(b) {
                    CtxV { flags: Flags { always_returns: true, ..f4 }, ..v }
                } else {
                    CtxV { flags: f4, ..v }
                }
            } else {
                CtxV { flags: Flags { throws: true, ..f3 }, ..v }
            }
        }
    }
}

/// The composition rule applied on leaving a node, once its children are
/// resolved: a node already marked resolved is left alone; a child that may
/// fall through makes the node fall through; otherwise the rule of the
/// node's kind applies.
pub open spec fn computed(v: CtxV) -> CtxV {
    if v.flags.spec_has_any(nfi_ft_mask()) {
        v
    } else if child_has(v.children, Flags { falls_through: true, ..Flags::empty() }) {
        CtxV { flags: ft_applied(v.flags), ..v }
    } else {
        match v.kind {
            StmtType::Unknown => v,
            StmtType::Block => computed_block(v),
            StmtType::Labeled => v,
            StmtType::TopLevel => computed_block(v),
            StmtType::If => computed_if(v),
            StmtType::For => computed_loop(v),
            StmtType::ForIn => computed_loop(v),
            StmtType::ForOf => computed_loop(v),
            StmtType::While => computed_loop(v),
            StmtType::DoWhile => computed_loop(v),
            StmtType::Switch => computed_switch(v),
            StmtType::SwitchCase => if v.children.len() == 0 {
                v
            } else {
                computed_block(v)
            },
            StmtType::SwitchDefault => if v.children.len() == 0 {
                v
            } else {
                computed_block(v)
            },
            StmtType::Try => computed_try(v),
            StmtType::TryBlock => computed_block(v),
            StmtType::TryCatch => computed_block(v),
            StmtType::TryFinally => computed_block(v),
            StmtType::Break => CtxV {
                flags: v.flags.spec_union(Flags { breaks: true, ..Flags::empty() }),
                ..v
            },
            StmtType::Continue => CtxV {
                flags: v.flags.spec_union(Flags { continues: true, ..Flags::empty() }),
                ..v
            },
            StmtType::Throw => CtxV {
                flags: v.flags.spec_union(
                    Flags { throws: true, always_returns: true, ..Flags::empty() },
                ),
                ..v
            },
            StmtType::Return => CtxV {
                flags: v.flags.spec_union(
                    Flags { returns: true, always_returns: true, ..Flags::empty() },
                ),
                ..v
            },
        }
    }
}

/// What `compute` demands of a node: its kind has been assigned; a labeled
/// node reaches composition only when the fast path resolved it; an `if`
/// node has a then branch; a try node's children are try branches.
pub open spec fn compute_pre(v: CtxV) -> bool {
    &&& v.kind != StmtType::Unknown
    &&& (v.kind == StmtType::Labeled ==> v.flags.spec_has_any(nfi_ft_mask()))
    &&& (v.kind == StmtType::If && !v.flags.spec_has_any(nfi_ft_mask()) ==> v.then_stmts is Some)
    &&& (v.kind == StmtType::Try ==> forall|i: int|
        0 <= i < v.children.len() ==> (v.children[i].kind == StmtType::TryBlock
            || v.children[i].kind == StmtType::TryCatch || v.children[i].kind
            == StmtType::TryFinally))
}

/// Extending a prefix by one element extends its pruning by that element
/// when it is kept.
proof fn lemma_pruned_step(t: Seq<CtxV>, i: int)
    requires
        0 <= i < t.len(),
    ensures
        pruned(t.subrange(0, i + 1)) == if ctx_keep(t[i]) {
            pruned(t.subrange(0, i)).push(t[i])
        } else {
            pruned(t.subrange(0, i))
        },
{
    assert(t.subrange(0, i + 1).drop_last() =~= t.subrange(0, i));
    assert(t.subrange(0, i + 1).last() == t[i]);
}

/// Extending a prefix by one element unions that element's masked flags in.
proof fn lemma_union_masked_step(t: Seq<CtxV>, m: Flags, i: int)
    requires
        0 <= i < t.len(),
    ensures
        union_masked(t.subrange(0, i + 1), m) == union_masked(t.subrange(0, i), m).spec_union(
            t[i].flags.spec_intersection(m),
        ),
{
    assert(t.subrange(0, i + 1).drop_last() =~= t.subrange(0, i));
    assert(t.subrange(0, i + 1).last() == t[i]);
}

/// Extending a prefix by one element updates the branch lookup when the
/// element has the sought kind.
proof fn lemma_try_branch_step(t: Seq<CtxV>, k: StmtType, i: int)
    requires
        0 <= i < t.len(),
    ensures
        try_branch(t.subrange(0, i + 1), k) == if t[i].kind == k {
            Some(t[i])
        } else {
            try_branch(t.subrange(0, i), k)
        },
{
    assert(t.subrange(0, i + 1).drop_last() =~= t.subrange(0, i));
    assert(t.subrange(0, i + 1).last() == t[i]);
}

/// Drops the flow-neutral contexts from a list, in place.
#[verifier::loop_isolation(false)]
fn prune_ctxs(v: &mut Vec<StmtCtx>)
    ensures
        ctxs_view(final(v)@) == pruned(ctxs_view(old(v)@)),
{
    broadcast use lemma_ctxs_view;

    let ghost ov = ctxs_view(old(v)@);
    let ghost n = old(v)@.len() as int;
    proof {
        lemma_ctxs_view(old(v)@);
    }
    let mut out: Vec<StmtCtx> = Vec::new();
    proof {
        assert(ov.subrange(0, 0) =~= Seq::<CtxV>::empty());
        assert(ctxs_view(out@) =~= Seq::<CtxV>::empty());
        assert(v@ =~= old(v)@.subrange(0, n));
    }
    while v.len() > 0
        invariant
            v@.len() <= n,
            v@ == old(v)@.subrange(n - v@.len(), n),
            ctxs_view(out@) == pruned(ov.subrange(0, n - v@.len())),
        decreases v@.len(),
    {
        let ghost k = n - v@.len();
        let ghost v_before = v@;
        let c = v.remove(0);
        proof {
            assert(c == v_before[0]);
            assert(v_before == old(v)@.subrange(k, n));
            assert(old(v)@.subrange(k, n)[0] == old(v)@[k]);
            assert(c == old(v)@[k]);
            assert(ctx_view(c) == ov[k]);
            assert(v@ =~= old(v)@.subrange(k + 1, n));
            lemma_pruned_step(ov, k);
        }
        if !c.flags.no_flow_impact {
            let ghost out0 = out@;
            out.push(c);
            proof {
                assert(out@.drop_last() =~= out0);
                assert(ctxs_view(out@) == pruned(ov.subrange(0, k + 1)));
            }
        }
    }
    proof {
        assert(ov.subrange(0, n) =~= ov);
    }
    let ghost outv = out@;
    v.append(&mut out);
    proof {
        assert(v@ =~= outv);
    }
}

/// The union, under a mask, of the flags of every context in the list.
#[verifier::loop_isolation(false)]
fn union_masked_exec(v: &Vec<StmtCtx>, m: Flags) -> (r: Flags)
    ensures
        r == union_masked(ctxs_view(v@), m),
{
    broadcast use lemma_ctxs_view;

    proof {
        lemma_ctxs_view(v@);
    }

    let ghost t = ctxs_view(v@);
    let mut acc = Flags::default();
    proof {
        assert(t.subrange(0, 0) =~= Seq::<CtxV>::empty());
    }
    let mut i: usize = 0;
    while i < v.len()
        invariant
            i <= v@.len(),
            t == ctxs_view(v@),
            acc == union_masked(t.subrange(0, i as int), m),
        decreases v@.len() - i,
    {
        let cf = v[i].flags;
        proof {
            lemma_union_masked_step(t, m, i as int);
        }
        let masked = Flags {
            no_flow_impact: cf.no_flow_impact && m.no_flow_impact,
            returns: cf.returns && m.returns,
            breaks: cf.breaks && m.breaks,
            continues: cf.continues && m.continues,
            throws: cf.throws && m.throws,
            always_returns: cf.always_returns && m.always_returns,
            falls_through: cf.falls_through && m.falls_through,
        };
        acc.add(masked);
        i = i + 1;
    }
    proof {
        assert(t.subrange(0, v@.len() as int) =~= t);
    }
    acc
}

/// Whether some context in the list has all the flags of the mask.
#[verifier::loop_isolation(false)]
fn child_has_exec(v: &Vec<StmtCtx>, m: Flags) -> (r: bool)
    ensures
        r == child_has(ctxs_view(v@), m),
{
    broadcast use lemma_ctxs_view;

    proof {
        lemma_ctxs_view(v@);
    }

    let mut i: usize = 0;
    while i < v.len()
        invariant
            i <= v@.len(),
            forall|j: int| 0 <= j < i ==> !ctxs_view(v@)[j].flags.spec_has(m),
        decreases v@.len() - i,
    {
        if v[i].flags.has(m) {
            proof {
                assert(ctxs_view(v@)[i as int] == ctx_view(v@[i as int]));
            }
            return true;
        }
        i = i + 1;
    }
    false
}

/// Whether every context in the list has all the flags of the mask.
#[verifier::loop_isolation(false)]
fn children_have_exec(v: &Vec<StmtCtx>, m: Flags) -> (r: bool)
    ensures
        r == children_have(ctxs_view(v@), m),
{
    broadcast use lemma_ctxs_view;

    proof {
        lemma_ctxs_view(v@);
    }

    let mut i: usize = 0;
    while i < v.len()
        invariant
            i <= v@.len(),
            forall|j: int| 0 <= j < i ==> ctxs_view(v@)[j].flags.spec_has(m),
        decreases v@.len() - i,
    {
        if !v[i].flags.has(m) {
            proof {
                assert(ctxs_view(v@)[i as int] == ctx_view(v@[i as int]));
            }
            return false;
        }
        i = i + 1;
    }
    true
}

/// The flags of an ordered, already pruned statement sequence.
fn block_like_exec(v: &Vec<StmtCtx>) -> (r: Flags)
    ensures
        r == block_like_flags(ctxs_view(v@)),
{
    broadcast use lemma_ctxs_view;

    proof {
        lemma_ctxs_view(v@);
    }

    if v.len() == 0 {
        return Flags::no_flow_impact();
    }
    if v.len() == 1 && !matches!(v[0].kind, StmtType::If) {
        return v[0].flags;
    }
    let mask = Flags::has_return_like().union(Flags::falls_through());
    proof {
        assert(mask == rl_ft_mask());
    }
    let mut u = union_masked_exec(v, mask);
    if u.falls_through {
        return u;
    }
    if !u.has_any(Flags::has_return_like()) {
        u.no_flow_impact = true;
        return u;
    }
    if !u.returns {
        return u;
    }
    let last = &v[v.len() - 1];
    proof {
        assert(ctxs_view(v@).last() == ctx_view(v@.last()));
    }
    let last_falls = last.flags.falls_through || !last.flags.always_returns || (matches!(
        last.kind,
        StmtType::If,
    ) && last.else_stmts.is_none());
    if last_falls {
        u.falls_through = true;
    } else {
        u.always_returns = true;
    }
    u
}

impl StmtCtx {
    /// A fresh context of the given kind, with no flags and no children.
    pub fn new(kind: StmtType) -> (r: StmtCtx)
        ensures
            ctx_view(r) == (CtxV {
                kind,
                flags: Flags::empty(),
                children: Seq::<CtxV>::empty(),
                label: None,
                then_stmts: None,
                else_stmts: None,
            }),
    {
        let r = StmtCtx {
            kind,
            flags: Flags::default(),
            children: Vec::new(),
            label: None,
            then_stmts: None,
            else_stmts: None,
        };
        proof {
            assert(ctxs_view(r.children@) =~= Seq::<CtxV>::empty());
        }
        r
    }

    /// Adds the given flags to the node.
    pub fn add(&mut self, flag: Flags)
        ensures
            *final(self) == (StmtCtx { flags: old(self).flags.spec_union(flag), ..*old(self) }),
    {
        self.flags.add(flag);
    }

    /// Adds, under the given mask, the set flags of another flag set.
    pub fn add_from(&mut self, other: &Flags, mask: Option<Flags>)
        ensures
            *final(self) == (StmtCtx {
                flags: match mask {
                    Some(m) => old(self).flags.spec_union(other.spec_intersection(m)),
                    None => old(self).flags.spec_union(*other),
                },
                ..*old(self)
            }),
    {
        self.flags.add_from(other, mask);
    }

    /// Clears the given flags on the node.
    pub fn rem(&mut self, flag: Flags)
        ensures
            *final(self) == (StmtCtx { flags: old(self).flags.spec_remove(flag), ..*old(self) }),
    {
        self.flags.rem(flag);
    }

    /// Whether the node has all the given flags.
    pub fn has(&self, flag: Flags) -> (r: bool)
        ensures
            r == self.flags.spec_has(flag),
    {
        self.flags.has(flag)
    }

    /// Whether the node has any of the given flags.
    pub fn has_any(&self, flag: Flags) -> (r: bool)
        ensures
            r == self.flags.spec_has_any(flag),
    {
        self.flags.has_any(flag)
    }

    /// Marks the node as possibly falling through.
    fn mark_falls_through(&mut self)
        ensures
            *final(self) == (StmtCtx { flags: ft_applied(old(self).flags), ..*old(self) }),
    {
        self.flags.falls_through = true;
        self.flags.always_returns = false;
    }

    /// Marks the node as flow-neutral.
    fn mark_no_flow_impact(&mut self)
        ensures
            *final(self) == (StmtCtx { flags: nfi_applied(old(self).flags), ..*old(self) }),
    {
        self.flags.no_flow_impact = true;
        self.flags.always_returns = false;
    }

    /// Prunes the children and unions the sequence flags in.
    fn compute_block(&mut self)
        ensures
            ctx_view(*final(self)) == computed_block(ctx_view(*old(self))),
    {
    broadcast use lemma_ctxs_view;

        prune_ctxs(&mut self.children);
        let f = block_like_exec(&self.children);
        self.flags.add(f);
    }

    /// Applies the composition rule of the node's kind, once the children
    /// are resolved (post-order).
    ///
    /// The fast path may already have resolved the node, in which case there
    /// is nothing to do.  A child that may fall through resolves the node at
    /// once: it may fall through too.
    pub fn compute(&mut self)
        requires
            compute_pre(ctx_view(*old(self))),
        ensures
            ctx_view(*final(self)) == computed(ctx_view(*old(self))),
    {
    broadcast use lemma_ctxs_view;

        let nfi_ft = Flags::no_flow_impact().union(Flags::falls_through());
        proof {
            assert(nfi_ft == nfi_ft_mask());
        }
        if self.flags.has_any(nfi_ft) {
            return ;
        }
        if child_has_exec(&self.children, Flags::falls_through()) {
            return self.mark_falls_through();
        }
        match self.kind {
            StmtType::Unknown => {
                proof {
                    assert(false);
                }
            },
            StmtType::Block => {
                self.compute_block();
            },
            StmtType::Labeled => {
                proof {
                    assert(false);
                }
            },
            StmtType::TopLevel => {
                self.compute_block();
            },
            StmtType::If => {
                self.compute_if();
            },
            StmtType::For | StmtType::ForIn | StmtType::ForOf | StmtType::While
                | StmtType::DoWhile => {
                self.compute_loop();
            },
            StmtType::Switch => {
                self.compute_switch();
            },
            StmtType::SwitchCase | StmtType::SwitchDefault => {
                if self.children.len() == 0 {
                    return ;
                }
                self.compute_block();
            },
            StmtType::Try => {
                self.compute_try();
            },
            StmtType::TryBlock | StmtType::TryCatch | StmtType::TryFinally => {
                self.compute_block();
            },
            StmtType::Break => {
                self.flags.add(Flags::breaks());
            },
            StmtType::Continue => {
                self.flags.add(Flags::continues());
            },
            StmtType::Throw => {
                self.flags.add(Flags::throws().union(Flags::always_returns()));
            },
            StmtType::Return => {
                self.flags.add(Flags::returns_flag().union(Flags::always_returns()));
            },
        }
    }

    /// The composition rule for an `if` node.
    fn compute_if(&mut self)
        requires
            old(self).kind == StmtType::If,
            old(self).then_stmts is Some,
            !old(self).flags.spec_has_any(nfi_ft_mask()),
        ensures
            ctx_view(*final(self)) == computed_if(ctx_view(*old(self))),
    {
    broadcast use lemma_ctxs_view;

        match &mut self.then_stmts {
            Some(t) => prune_ctxs(t),
            None => {
                proof {
                    assert(false);
                }
            },
        }
        let tf = match &self.then_stmts {
            Some(t) => block_like_exec(t),
            None => vstd::pervasive::unreached(),
        };
        let mut else_exists = false;
        let mut ef = Flags::default();
        match &mut self.else_stmts {
            Some(e) => {
                prune_ctxs(e);
            },
            None => {},
        }
        match &self.else_stmts {
            Some(e) => {
                else_exists = true;
                ef = block_like_exec(e);
            },
            None => {},
        }
        self.flags.add(tf.union(ef));
        if !self.flags.has_any(Flags::has_return_like()) {
            return self.mark_no_flow_impact();
        }
        if self.flags.falls_through {
            return self.mark_falls_through();
        }
        if else_exists && !(tf.always_returns && ef.always_returns) {
            return self.mark_falls_through();
        }
    }

    /// The composition rule for a loop node.
    fn compute_loop(&mut self)
        ensures
            ctx_view(*final(self)) == computed_loop(ctx_view(*old(self))),
    {
        prune_ctxs(&mut self.children);
        if self.children.len() == 0 {
            proof {
                broadcast use lemma_ctxs_view;

                assert(ctxs_view(self.children@) =~= Seq::<CtxV>::empty());
            }
            return self.mark_no_flow_impact();
        }
        let f = block_like_exec(&self.children);
        self.flags.add(f);
        if child_has_exec(&self.children, Flags::returns_flag()) {
            return self.mark_falls_through();
        }
        self.flags.rem(Flags::breaks().union(Flags::continues()));
    }

    /// The composition rule for a switch node.
    #[verifier::loop_isolation(false)]
    fn compute_switch(&mut self)
        ensures
            ctx_view(*final(self)) == computed_switch(ctx_view(*old(self))),
    {
    broadcast use lemma_ctxs_view;

        let mask = Flags::continues().union(Flags::returns_flag()).union(Flags::throws());
        proof {
            assert(mask == cont_ret_thr_mask());
        }
        let add = union_masked_exec(&self.children, mask);
        self.flags.add(add);
        if children_have_exec(&self.children, Flags::no_flow_impact()) {
            return self.mark_no_flow_impact();
        }
        if self.flags.returns {
            if self.flags.has_any(Flags::breaks().union(Flags::continues())) {
                return self.mark_falls_through();
            }
            let mut has_default = false;
            let mut i: usize = 0;
            while i < self.children.len()
                invariant
                    i <= self.children@.len(),
                    has_default == (exists|j: int|
                        0 <= j < i && ctxs_view(self.children@)[j].kind == StmtType::SwitchDefault),
                decreases self.children@.len() - i,
            {
                proof {
                    lemma_ctxs_view(self.children@);
                    assert(ctxs_view(self.children@)[i as int] == ctx_view(
                        self.children@[i as int],
                    ));
                }
                if matches!(self.children[i].kind, StmtType::SwitchDefault) {
                    has_default = true;
                }
                i = i + 1;
            }
            if !has_default || !children_have_exec(&self.children, Flags::always_returns()) {
                return self.mark_falls_through();
            }
            self.flags.always_returns = true;
        }
    }

    /// The composition rule for a try node.
    #[verifier::loop_isolation(false)]
    #[verifier::rlimit(100)]
    #[verifier::spinoff_prover]
    fn compute_try(&mut self)
        ensures
            ctx_view(*final(self)) == computed_try(ctx_view(*old(self))),
    {
    broadcast use lemma_ctxs_view;

        let ghost t = ctxs_view(self.children@);
        let mask = Flags::breaks().union(Flags::continues());
        proof {
            assert(mask == brk_cont_mask());
        }
        let add = union_masked_exec(&self.children, mask);
        self.flags.add(add);
        let mut b_exists = false;
        let mut b_flags = Flags::default();
        let mut c_exists = false;
        let mut c_flags = Flags::default();
        let mut f_exists = false;
        let mut f_flags = Flags::default();
        proof {
            assert(t.subrange(0, 0) =~= Seq::<CtxV>::empty());
        }
        let mut i: usize = 0;
        while i < self.children.len()
            invariant
                i <= self.children@.len(),
                t == ctxs_view(self.children@),
                b_exists == branch_exists(try_branch(t.subrange(0, i as int), StmtType::TryBlock)),
                b_exists ==> Some(b_flags) == match try_branch(
                    t.subrange(0, i as int),
                    StmtType::TryBlock,
                ) {
                    Some(c) => Some(c.flags),
                    None => None,
                },
                c_exists == branch_exists(try_branch(t.subrange(0, i as int), StmtType::TryCatch)),
                c_exists ==> Some(c_flags) == match try_branch(
                    t.subrange(0, i as int),
                    StmtType::TryCatch,
                ) {
                    Some(c) => Some(c.flags),
                    None => None,
                },
                f_exists == branch_exists(
                    try_branch(t.subrange(0, i as int), StmtType::TryFinally),
                ),
                f_exists ==> Some(f_flags) == match try_branch(
                    t.subrange(0, i as int),
                    StmtType::TryFinally,
                ) {
                    Some(c) => Some(c.flags),
                    None => None,
                },
            decreases self.children@.len() - i,
        {
            proof {
                lemma_try_branch_step(t, StmtType::TryBlock, i as int);
                lemma_try_branch_step(t, StmtType::TryCatch, i as int);
                lemma_try_branch_step(t, StmtType::TryFinally, i as int);
            }
            match self.children[i].kind {
                StmtType::TryBlock => {
                    b_exists = true;
                    b_flags = self.children[i].flags;
                },
                StmtType::TryCatch => {
                    c_exists = true;
                    c_flags = self.children[i].flags;
                },
                StmtType::TryFinally => {
                    f_exists = true;
                    f_flags = self.children[i].flags;
                },
                _ => {},
            }
            i = i + 1;
        }
        proof {
            assert(t.subrange(0, self.children@.len() as int) =~= t);
        }
        if children_have_exec(&self.children, Flags::no_flow_impact()) {
            return self.mark_no_flow_impact();
        }
        let b_returns = b_exists && b_flags.returns;
        let c_returns = c_exists && c_flags.returns;
        let f_returns = f_exists && f_flags.returns;
        let b_ar = b_exists && b_flags.always_returns;
        let c_ar = c_exists && c_flags.always_returns;
        let f_ar = f_exists && f_flags.always_returns;
        if b_returns {
            self.flags.returns = true;
        }
        let any_ret = b_returns || c_returns || f_returns;
        let only_finally = f_returns && !(b_returns || c_returns);
        if any_ret && only_finally && !f_ar {
            return self.mark_falls_through();
        }
        if any_ret && !only_finally && !f_ar && ((!b_ar && b_exists) || (!c_ar && c_exists)) {
            return self.mark_falls_through();
        }
        if f_exists && f_flags.throws {
            self.flags.throws = true;
        }
        if f_returns {
            self.flags.returns = true;
        }
        if f_exists && f_ar {
            self.flags.always_returns = true;
            return ;
        }
        if c_exists {
            if c_flags.throws && !f_ar {
                self.flags.throws = true;
            }
            if c_returns {
                self.flags.returns = true;
            }
            if c_ar && b_ar {
                self.flags.always_returns = true;
            }
        } else {
            self.flags.throws = true;
        }
    }
}

} // verus!
