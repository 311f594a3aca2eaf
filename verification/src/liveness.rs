//! The join-point-aware liveness oracle: which symbols may still be read
//! along some control path from a point of the tree.  A jump inherits the
//! live set of the join body it targets, so the oracle carries a scoped map
//! from join id to that body's live set, pushed on entry to a `Join` and
//! popped on exit.

use vstd::prelude::*;

use crate::ir::{
    branches_jumps_bound, jumps_bound, stmt_supported, Branches, Call, Expr, JoinPointId, ModifyRc,
    Stmt, Symbol,
};

verus! {

/// The set of symbols an expression mentions.
pub open spec fn expr_vars(e: Expr) -> Set<Symbol> {
    Set::new(|x: Symbol| crate::ir::expr_uses(e, x))
}

/// The set of symbols a sequence holds.
pub open spec fn seq_syms(s: Seq<Symbol>) -> Set<Symbol> {
    Set::new(|x: Symbol| s.contains(x))
}

/// Appending one symbol to a sequence inserts it into the sequence's set.
pub proof fn lemma_seq_syms_push(s: Seq<Symbol>, e: Symbol)
    ensures
        seq_syms(s.push(e)) == seq_syms(s).insert(e),
{
    assert forall|y: Symbol| s.push(e).contains(y) implies seq_syms(s).insert(e).contains(y) by {
        let j = choose|j: int| 0 <= j < s.push(e).len() && s.push(e)[j] == y;
        if j < s.len() {
            assert(s[j] == y);
        }
    }
    assert forall|y: Symbol| seq_syms(s).insert(e).contains(y) implies s.push(e).contains(y) by {
        if y == e {
            assert(s.push(e)[s.len() as int] == y);
        } else {
            let j = choose|j: int| 0 <= j < s.len() && s[j] == y;
            assert(s.push(e)[j] == y);
        }
    }
    assert(seq_syms(s.push(e)) =~= seq_syms(s).insert(e));
}

/// The scoped join-liveness context, as a stack of bindings; a later binding
/// for the same id shadows an earlier one.
pub type LiveCtx = Seq<(JoinPointId, Set<Symbol>)>;

/// The set bound to `id` in the context, innermost binding first; empty when
/// the id is unbound.
pub open spec fn lookup_live(m: LiveCtx, id: JoinPointId) -> Set<Symbol>
    decreases m.len(),
{
    if m.len() == 0 {
        Set::empty()
    } else if m.last().0 == id {
        m.last().1
    } else {
        lookup_live(m.drop_last(), id)
    }
}

/// The ids bound in the context.
pub open spec fn ctx_ids(m: LiveCtx) -> Set<JoinPointId> {
    Set::new(|id: JoinPointId| exists|i: int| 0 <= i < m.len() && m[i].0 == id)
}

/// The set of symbols live in the statement under the given join-liveness
/// context: every symbol referenced by an expression, a refcount operation,
/// a scrutinee, a terminal or a jump reachable along the statement's control
/// flow, where a jump to a join id also contributes the set recorded for
/// that id.  A `Join` records its body's own live set for the remainder.
pub open spec fn live_vars(m: LiveCtx, s: Stmt) -> Set<Symbol>
    decreases s,
{
    match s {
        Stmt::Let(_, e, _, cont) => expr_vars(e).union(live_vars(m, *cont)),
        Stmt::Switch { cond_symbol, branches, default_branch, .. } => Set::empty().insert(
            cond_symbol,
        ).union(branches_live_vars(m, *branches)).union(live_vars(m, *default_branch)),
        Stmt::Ret(x) => Set::empty().insert(x),
        Stmt::Refcounting(op, cont) => Set::empty().insert(op.spec_get_symbol()).union(
            live_vars(m, *cont),
        ),
        Stmt::Join { id, body, remainder, .. } => {
            let bv = live_vars(m.push((id, Set::empty())), *body);
            bv.union(live_vars(m.push((id, bv)), *remainder))
        },
        Stmt::Jump(id, args) => seq_syms(args@).union(lookup_live(m, id)),
        Stmt::Invoke { call, pass, fail, .. } => seq_syms(call.arguments@).union(
            live_vars(m, *pass),
        ).union(live_vars(m, *fail)),
        Stmt::Resume(_) => Set::empty(),
        Stmt::RuntimeError(_) => Set::empty(),
    }
}

/// `live_vars`, unioned over a branch list.
pub open spec fn branches_live_vars(m: LiveCtx, b: Branches) -> Set<Symbol>
    decreases b,
{
    match b {
        Branches::Nil => Set::empty(),
        Branches::Cons { body, rest, .. } => live_vars(m, body).union(branches_live_vars(m, *rest)),
    }
}

/// An executable set of symbols, viewed as the mathematical set of its
/// elements.
pub struct VarSet {
    pub syms: Vec<Symbol>,
}

impl View for VarSet {
    type V = Set<Symbol>;

    open spec fn view(&self) -> Set<Symbol> {
        seq_syms(self.syms@)
    }
}

impl VarSet {
    /// The empty set.
    pub fn new() -> (r: VarSet)
        ensures
            r@ == Set::<Symbol>::empty(),
    {
        let r = VarSet { syms: Vec::new() };
        proof {
            assert(r@ =~= Set::<Symbol>::empty());
        }
        r
    }

    /// Add one symbol.
    pub fn insert(&mut self, x: Symbol)
        ensures
            final(self)@ == old(self)@.insert(x),
    {
        self.syms.push(x);
        proof {
            lemma_seq_syms_push(old(self).syms@, x);
        }
    }

    /// Whether the symbol is in the set.
    pub fn contains(&self, x: Symbol) -> (r: bool)
        ensures
            r == self@.contains(x),
    {
        let mut i: usize = 0;
        while i < self.syms.len()
            invariant
                0 <= i <= self.syms.len(),
                forall|j: int| 0 <= j < i ==> self.syms@[j] != x,
            decreases self.syms.len() - i,
        {
            if self.syms[i] == x {
                return true;
            }
            i += 1;
        }
        false
    }

    /// Add every symbol of the slice.
    pub fn insert_all(&mut self, other: &Vec<Symbol>)
        ensures
            final(self)@ == old(self)@.union(seq_syms(other@)),
    {
        let mut i: usize = 0;
        while i < other.len()
            invariant
                0 <= i <= other.len(),
                self@ == old(self)@.union(seq_syms(other@.subrange(0, i as int))),
            decreases other.len() - i,
        {
            self.insert(other[i]);
            proof {
                assert(other@.subrange(0, i as int + 1) =~= other@.subrange(0, i as int).push(
                    other@[i as int],
                ));
                lemma_seq_syms_push(other@.subrange(0, i as int), other@[i as int]);
                assert(self@ =~= old(self)@.union(seq_syms(other@.subrange(0, i as int + 1))));
            }
            i += 1;
        }
        proof {
            assert(other@.subrange(0, other@.len() as int) =~= other@);
        }
    }

    /// Add every symbol of the other set.
    pub fn extend_from(&mut self, other: &VarSet)
        ensures
            final(self)@ == old(self)@.union(other@),
    {
        self.insert_all(&other.syms);
        proof {
            assert(self@ =~= old(self)@.union(other@));
        }
    }
}

/// The scoped map from join id to the live set of that join's body, kept as
/// a stack so that an inner binding shadows an outer one and scopes can be
/// torn down on exit.
pub struct JoinLiveness {
    pub entries: Vec<(JoinPointId, VarSet)>,
}

impl View for JoinLiveness {
    type V = LiveCtx;

    open spec fn view(&self) -> LiveCtx {
        self.entries@.map_values(|e: (JoinPointId, VarSet)| (e.0, e.1@))
    }
}

impl JoinLiveness {
    /// The empty context.
    pub fn new() -> (r: JoinLiveness)
        ensures
            r@ == Seq::<(JoinPointId, Set<Symbol>)>::empty(),
    {
        let r = JoinLiveness { entries: Vec::new() };
        proof {
            assert(r@ =~= Seq::<(JoinPointId, Set<Symbol>)>::empty());
        }
        r
    }

    /// Enter a scope: bind `id` to the given set.
    pub fn push_scope(&mut self, id: JoinPointId, vs: VarSet)
        ensures
            final(self)@ == old(self)@.push((id, vs@)),
    {
        self.entries.push((id, vs));
        proof {
            assert(self@ =~= old(self)@.push((id, vs@)));
        }
    }

    /// Leave the innermost scope.
    pub fn pop_scope(&mut self)
        requires
            old(self)@.len() > 0,
        ensures
            final(self)@ == old(self)@.drop_last(),
    {
        self.entries.pop();
        proof {
            assert(self@ =~= old(self)@.drop_last());
        }
    }

    /// Whether the needle is in the set bound to `id`.
    pub fn bound_contains(&self, id: JoinPointId, needle: Symbol) -> (r: bool)
        requires
            ctx_ids(self@).contains(id),
        ensures
            r == lookup_live(self@, id).contains(needle),
    {
        proof {
            assert(self@.subrange(0, self@.len() as int) =~= self@);
        }
        let mut i: usize = self.entries.len();
        while i > 0
            invariant
                0 <= i <= self.entries.len(),
                ctx_ids(self@).contains(id),
                forall|j: int| i <= j < self.entries@.len() ==> self.entries@[j].0 != id,
                lookup_live(self@, id) == lookup_live(self@.subrange(0, i as int), id),
            decreases i,
        {
            proof {
                lemma_lookup_live_prefix(self@, id, i as int);
            }
            i -= 1;
            if self.entries[i].0 == id {
                proof {
                    assert(self@[i as int].1 == self.entries@[i as int].1@);
                }
                return self.entries[i].1.contains(needle);
            }
        }
        proof {
            let w = choose|j: int| 0 <= j < self@.len() && self@[j].0 == id;
            assert(self.entries@[w].0 == id);
            assert(false);
        }
        false
    }

    /// Copy the set bound to `id` into the accumulator.
    pub fn add_bound_to(&self, id: JoinPointId, acc: &mut VarSet)
        requires
            ctx_ids(self@).contains(id),
        ensures
            final(acc)@ == old(acc)@.union(lookup_live(self@, id)),
    {
        proof {
            assert(self@.subrange(0, self@.len() as int) =~= self@);
        }
        let mut i: usize = self.entries.len();
        while i > 0
            invariant
                0 <= i <= self.entries.len(),
                ctx_ids(self@).contains(id),
                acc@ == old(acc)@,
                forall|j: int| i <= j < self.entries@.len() ==> self.entries@[j].0 != id,
                lookup_live(self@, id) == lookup_live(self@.subrange(0, i as int), id),
            decreases i,
        {
            proof {
                lemma_lookup_live_prefix(self@, id, i as int);
            }
            i -= 1;
            if self.entries[i].0 == id {
                proof {
                    assert(self@[i as int].1 == self.entries@[i as int].1@);
                }
                acc.extend_from(&self.entries[i].1);
                return ;
            }
        }
        proof {
            let w = choose|j: int| 0 <= j < self@.len() && self@[j].0 == id;
            assert(self.entries@[w].0 == id);
            assert(false);
        }
    }
}

/// In a context whose entries past `i` do not bind `id`, the lookup is
/// settled within the first `i` entries.
proof fn lemma_lookup_live_prefix(m: LiveCtx, id: JoinPointId, i: int)
    requires
        0 < i <= m.len(),
        lookup_live(m, id) == lookup_live(m.subrange(0, i), id),
    ensures
        m[i - 1].0 == id ==> lookup_live(m, id) == m[i - 1].1,
        m[i - 1].0 != id ==> lookup_live(m, id) == lookup_live(m.subrange(0, i - 1), id),
{
    let p = m.subrange(0, i);
    assert(p.last() == m[i - 1]);
    if p.last().0 == id {
    } else {
        assert(p.drop_last() =~= m.subrange(0, i - 1));
    }
}


/// Binding an id at the top of the context adds exactly that id to the bound
/// ids.
pub proof fn lemma_ctx_ids_push(m: LiveCtx, id: JoinPointId, vs: Set<Symbol>)
    ensures
        ctx_ids(m.push((id, vs))) == ctx_ids(m).insert(id),
{
    assert forall|id2: JoinPointId| ctx_ids(m.push((id, vs))).contains(id2) implies ctx_ids(
        m,
    ).insert(id).contains(id2) by {
        let i = choose|i: int| 0 <= i < m.push((id, vs)).len() && m.push((id, vs))[i].0 == id2;
        if i < m.len() {
            assert(m[i].0 == id2);
        }
    }
    assert forall|id2: JoinPointId| ctx_ids(m).insert(id).contains(id2) implies ctx_ids(
        m.push((id, vs)),
    ).contains(id2) by {
        if id2 == id {
            assert(m.push((id, vs))[m.len() as int].0 == id2);
        } else {
            let i = choose|i: int| 0 <= i < m.len() && m[i].0 == id2;
            assert(m.push((id, vs))[i].0 == id2);
        }
    }
    assert(ctx_ids(m.push((id, vs))) =~= ctx_ids(m).insert(id));
}

/// Whether the slice holds the symbol.
pub fn syms_contains(v: &Vec<Symbol>, x: Symbol) -> (r: bool)
    ensures
        r == v@.contains(x),
{
    let mut i: usize = 0;
    while i < v.len()
        invariant
            0 <= i <= v.len(),
            forall|j: int| 0 <= j < i ==> v@[j] != x,
        decreases v.len() - i,
    {
        if v[i] == x {
            return true;
        }
        i += 1;
    }
    false
}

/// Add every symbol the expression mentions to the accumulator.
pub fn occurring_variables_expr(e: &Expr, result: &mut VarSet)
    ensures
        final(result)@ == old(result)@.union(expr_vars(*e)),
{
    match e {
        Expr::Literal(_) => {},
        Expr::Call(c) => {
            result.insert_all(&c.arguments);
        },
        Expr::Array { elems, .. } => {
            result.insert_all(elems);
        },
        Expr::EmptyArray => {},
        Expr::Tag { arguments, .. } => {
            result.insert_all(arguments);
        },
        Expr::Struct(fields) => {
            result.insert_all(fields);
        },
        Expr::StructAtIndex { structure, .. } => {
            result.insert(*structure);
        },
        Expr::GetTagId { structure } => {
            result.insert(*structure);
        },
        Expr::UnionAtIndex { structure, .. } => {
            result.insert(*structure);
        },
        Expr::Reset(x) => {
            result.insert(*x);
        },
        Expr::Reuse { symbol, arguments, .. } => {
            result.insert(*symbol);
            result.insert_all(arguments);
        },
        Expr::RuntimeErrorFunction(_) => {},
    }
    proof {
        assert(result@ =~= old(result)@.union(expr_vars(*e)));
    }
}

/// Compute the live set of the statement, added onto the accumulator.  The
/// context is used transiently for nested joins and is restored on exit.
pub fn collect_stmt(m: &mut JoinLiveness, s: &Stmt, vars: VarSet) -> (r: VarSet)
    requires
        jumps_bound(*s, ctx_ids(old(m)@)),
    ensures
        final(m)@ == old(m)@,
        r@ == vars@.union(live_vars(old(m)@, *s)),
    decreases *s,
{
    let ghost m0 = m@;
    match s {
        Stmt::Let(_, e, _, cont) => {
            let mut r = collect_stmt(m, cont, vars);
            occurring_variables_expr(e, &mut r);
            proof {
                assert(r@ =~= vars@.union(live_vars(m0, *s)));
            }
            r
        },
        Stmt::Switch { cond_symbol, branches, default_branch, .. } => {
            let mut v = vars;
            v.insert(*cond_symbol);
            let v = collect_branches(m, branches, v);
            let r = collect_stmt(m, default_branch, v);
            proof {
                assert(r@ =~= vars@.union(live_vars(m0, *s)));
            }
            r
        },
        Stmt::Ret(x) => {
            let mut v = vars;
            v.insert(*x);
            proof {
                assert(v@ =~= vars@.union(live_vars(m0, *s)));
            }
            v
        },
        Stmt::Refcounting(op, cont) => {
            let mut v = vars;
            v.insert(op.get_symbol());
            let r = collect_stmt(m, cont, v);
            proof {
                assert(r@ =~= vars@.union(live_vars(m0, *s)));
            }
            r
        },
        Stmt::Join { id, body, remainder, .. } => {
            proof {
                lemma_ctx_ids_push(m0, *id, Set::empty());
            }
            m.push_scope(*id, VarSet::new());
            let bv = collect_stmt(m, body, VarSet::new());
            m.pop_scope();
            proof {
                assert(m@ =~= m0);
                assert(bv@ =~= live_vars(m0.push((*id, Set::empty())), **body));
            }
            let mut v = vars;
            v.extend_from(&bv);
            proof {
                lemma_ctx_ids_push(m0, *id, bv@);
            }
            m.push_scope(*id, bv);
            let r = collect_stmt(m, remainder, v);
            m.pop_scope();
            proof {
                assert(m@ =~= m0);
                assert(r@ =~= vars@.union(live_vars(m0, *s)));
            }
            r
        },
        Stmt::Jump(id, args) => {
            let mut v = vars;
            v.insert_all(args);
            m.add_bound_to(*id, &mut v);
            proof {
                assert(v@ =~= vars@.union(live_vars(m0, *s)));
            }
            v
        },
        Stmt::Invoke { call, pass, fail, .. } => {
            let mut v = vars;
            v.insert_all(&call.arguments);
            let v = collect_stmt(m, pass, v);
            let r = collect_stmt(m, fail, v);
            proof {
                assert(r@ =~= vars@.union(live_vars(m0, *s)));
            }
            r
        },
        Stmt::Resume(_) => {
            proof {
                assert(vars@ =~= vars@.union(live_vars(m0, *s)));
            }
            vars
        },
        Stmt::RuntimeError(_) => {
            proof {
                assert(vars@ =~= vars@.union(live_vars(m0, *s)));
            }
            vars
        },
    }
}

/// `collect_stmt`, over a branch list.
pub fn collect_branches(m: &mut JoinLiveness, b: &Branches, vars: VarSet) -> (r: VarSet)
    requires
        branches_jumps_bound(*b, ctx_ids(old(m)@)),
    ensures
        final(m)@ == old(m)@,
        r@ == vars@.union(branches_live_vars(old(m)@, *b)),
    decreases *b,
{
    let ghost m0 = m@;
    match b {
        Branches::Nil => {
            proof {
                assert(vars@ =~= vars@.union(branches_live_vars(m0, *b)));
            }
            vars
        },
        Branches::Cons { body, rest, .. } => {
            let v = collect_stmt(m, body, vars);
            let r = collect_branches(m, rest, v);
            proof {
                assert(r@ =~= vars@.union(branches_live_vars(m0, *b)));
            }
            r
        },
    }
}

/// Whether the needle is mentioned by the expression.  `Call` expressions
/// are outside the analysis, and `Reset`/`Reuse` must not occur in input.
pub fn has_live_var_expr(e: &Expr, needle: Symbol) -> (r: bool)
    requires
        crate::ir::expr_supported(*e),
    ensures
        r == expr_vars(*e).contains(needle),
{
    match e {
        Expr::Literal(_) => false,
        Expr::Call(_) => {
            proof {
                assert(false);
            }
            false
        },
        Expr::Array { elems, .. } => syms_contains(elems, needle),
        Expr::EmptyArray => false,
        Expr::Tag { arguments, .. } => syms_contains(arguments, needle),
        Expr::Struct(fields) => syms_contains(fields, needle),
        Expr::StructAtIndex { structure, .. } => *structure == needle,
        Expr::GetTagId { structure } => *structure == needle,
        Expr::UnionAtIndex { structure, .. } => *structure == needle,
        Expr::Reset(x) => *x == needle,
        Expr::Reuse { symbol, arguments, .. } => {
            if *symbol == needle {
                true
            } else {
                syms_contains(arguments, needle)
            }
        },
        Expr::RuntimeErrorFunction(_) => false,
    }
}

/// Whether the needle is among a call's arguments.
pub fn has_live_var_call(c: &Call, needle: Symbol) -> (r: bool)
    ensures
        r == seq_syms(c.arguments@).contains(needle),
{
    syms_contains(&c.arguments, needle)
}

/// The liveness oracle: whether the needle may still be read along some
/// control path of the statement, under the given join-liveness context.
/// The needle must be bound outside the subtree — never by a `Let` or
/// `Invoke` within it, nor equal to a join parameter: bindings are unique,
/// so every occurrence inside counts as a reference.
pub fn has_live_var(m: &mut JoinLiveness, s: &Stmt, needle: Symbol) -> (r: bool)
    requires
        !crate::ir::binds(*s, needle),
        stmt_supported(*s),
        jumps_bound(*s, ctx_ids(old(m)@)),
    ensures
        final(m)@ == old(m)@,
        r == live_vars(old(m)@, *s).contains(needle),
    decreases *s,
{
    let ghost m0 = m@;
    match s {
        Stmt::Let(_, e, _, cont) => {
            if has_live_var_expr(e, needle) {
                true
            } else {
                has_live_var(m, cont, needle)
            }
        },
        Stmt::Switch { cond_symbol, branches, default_branch, .. } => {
            if *cond_symbol == needle {
                true
            } else if has_live_var_branches(m, branches, needle) {
                true
            } else {
                has_live_var(m, default_branch, needle)
            }
        },
        Stmt::Ret(x) => *x == needle,
        Stmt::Refcounting(op, cont) => {
            if op.get_symbol() == needle {
                true
            } else {
                has_live_var(m, cont, needle)
            }
        },
        Stmt::Join { id, body, remainder, .. } => {
            proof {
                lemma_ctx_ids_push(m0, *id, Set::empty());
            }
            m.push_scope(*id, VarSet::new());
            let bv = collect_stmt(m, body, VarSet::new());
            m.pop_scope();
            proof {
                assert(m@ =~= m0);
                assert(bv@ =~= live_vars(m0.push((*id, Set::empty())), **body));
            }
            if bv.contains(needle) {
                true
            } else {
                proof {
                    lemma_ctx_ids_push(m0, *id, bv@);
                }
                m.push_scope(*id, bv);
                let r = has_live_var(m, remainder, needle);
                m.pop_scope();
                proof {
                    assert(m@ =~= m0);
                }
                r
            }
        },
        Stmt::Jump(id, args) => {
            if syms_contains(args, needle) {
                true
            } else {
                m.bound_contains(*id, needle)
            }
        },
        Stmt::Invoke { .. } => {
            proof {
                assert(false);
            }
            false
        },
        Stmt::Resume(_) => false,
        Stmt::RuntimeError(_) => false,
    }
}

/// `has_live_var`, over a branch list.
pub fn has_live_var_branches(m: &mut JoinLiveness, b: &Branches, needle: Symbol) -> (r: bool)
    requires
        !crate::ir::branches_bind(*b, needle),
        crate::ir::branches_supported(*b),
        branches_jumps_bound(*b, ctx_ids(old(m)@)),
    ensures
        final(m)@ == old(m)@,
        r == branches_live_vars(old(m)@, *b).contains(needle),
    decreases *b,
{
    match b {
        Branches::Nil => false,
        Branches::Cons { body, rest, .. } => {
            if has_live_var(m, body, needle) {
                true
            } else {
                has_live_var_branches(m, rest, needle)
            }
        },
    }
}

/// A join point's body that references a symbol makes every jump to that
/// join report the symbol live, whether or not the symbol appears among the
/// jump's own arguments: the remainder of the join is analysed under a
/// context binding the join's id to the body's live set, and a jump
/// contributes the whole set bound to its target id.
pub proof fn lemma_join_liveness_at_jump(m: LiveCtx, s: Stmt, jump: Stmt, v: Symbol)
    requires
        s matches Stmt::Join { id, body, .. } && jump matches Stmt::Jump(jid, _) && jid == id
            && live_vars(m.push((id, Set::empty())), *body).contains(v),
    ensures
        live_vars(m, s).contains(v),
        (s matches Stmt::Join { id, body, .. } ==> live_vars(
            m.push((id, live_vars(m.push((id, Set::empty())), *body))),
            jump,
        ).contains(v)),
{
    match s {
        Stmt::Join { id, body, remainder, .. } => {
            let bv = live_vars(m.push((id, Set::empty())), *body);
            assert(live_vars(m, s) == bv.union(live_vars(m.push((id, bv)), *remainder)));
            match jump {
                Stmt::Jump(jid, args) => {
                    assert(m.push((id, bv)).last() == (id, bv));
                    assert(lookup_live(m.push((id, bv)), id) == bv);
                },
                _ => {
                    assert(false);
                },
            }
        },
        _ => {
            assert(false);
        },
    }
}


/// Pointwise x-monotonicity of contexts: same join ids in the same order,
/// and wherever the first context records `x` live, so does the second.
pub open spec fn ctx_le_on(m1: LiveCtx, m2: LiveCtx, x: Symbol) -> bool {
    m1.len() == m2.len() && forall|i: int|
        #![trigger m1[i], m2[i]]
        0 <= i < m1.len() ==> m1[i].0 == m2[i].0 && (m1[i].1.contains(x) ==> m2[i].1.contains(x))
}

/// Lookup respects context x-monotonicity.
proof fn lemma_lookup_le_on(m1: LiveCtx, m2: LiveCtx, id: JoinPointId, x: Symbol)
    requires
        ctx_le_on(m1, m2, x),
        lookup_live(m1, id).contains(x),
    ensures
        lookup_live(m2, id).contains(x),
    decreases m1.len(),
{
    if m1.len() > 0 {
        assert(m1.last() == m1[m1.len() - 1]);
        assert(m2.last() == m2[m2.len() - 1]);
        if m1.last().0 != id {
            assert(m1.drop_last().len() == m2.drop_last().len());
            assert forall|i: int|
                #![trigger m1.drop_last()[i], m2.drop_last()[i]]
                0 <= i < m1.drop_last().len() implies m1.drop_last()[i].0 == m2.drop_last()[i].0
                && (m1.drop_last()[i].1.contains(x) ==> m2.drop_last()[i].1.contains(x)) by {
                assert(m1.drop_last()[i] == m1[i]);
                assert(m2.drop_last()[i] == m2[i]);
            }
            lemma_lookup_le_on(m1.drop_last(), m2.drop_last(), id, x);
        }
    }
}

/// Liveness of one symbol respects context x-monotonicity: enlarging what
/// the context records live for `x` can only keep `x` live.
pub proof fn lemma_live_vars_le_on(m1: LiveCtx, m2: LiveCtx, s: Stmt, x: Symbol)
    requires
        ctx_le_on(m1, m2, x),
        live_vars(m1, s).contains(x),
    ensures
        live_vars(m2, s).contains(x),
    decreases s,
{
    match s {
        Stmt::Let(_, e, _, cont) => {
            if live_vars(m1, *cont).contains(x) {
                lemma_live_vars_le_on(m1, m2, *cont, x);
            }
        },
        Stmt::Switch { branches, default_branch, .. } => {
            if branches_live_vars(m1, *branches).contains(x) {
                lemma_branches_live_vars_le_on(m1, m2, *branches, x);
            } else if live_vars(m1, *default_branch).contains(x) {
                lemma_live_vars_le_on(m1, m2, *default_branch, x);
            }
        },
        Stmt::Ret(_) => {},
        Stmt::Refcounting(_, cont) => {
            if live_vars(m1, *cont).contains(x) {
                lemma_live_vars_le_on(m1, m2, *cont, x);
            }
        },
        Stmt::Join { id, body, remainder, .. } => {
            let bv1 = live_vars(m1.push((id, Set::empty())), *body);
            let bv2 = live_vars(m2.push((id, Set::empty())), *body);
            assert(ctx_le_on(
                m1.push((id, Set::empty())),
                m2.push((id, Set::empty())),
                x,
            )) by {
                assert forall|i: int|
                    #![trigger m1.push((id, Set::empty()))[i], m2.push((id, Set::empty()))[i]]
                    0 <= i < m1.len() + 1 implies m1.push((id, Set::empty()))[i].0 == m2.push(
                    (id, Set::empty()),
                )[i].0 && (m1.push((id, Set::empty()))[i].1.contains(x) ==> m2.push(
                    (id, Set::empty()),
                )[i].1.contains(x)) by {
                    if i < m1.len() {
                        assert(m1.push((id, Set::empty()))[i] == m1[i]);
                        assert(m2.push((id, Set::empty()))[i] == m2[i]);
                    }
                }
            }
            if bv1.contains(x) {
                lemma_live_vars_le_on(
                    m1.push((id, Set::empty())),
                    m2.push((id, Set::empty())),
                    *body,
                    x,
                );
            } else {
                assert(live_vars(m1.push((id, bv1)), *remainder).contains(x));
                assert(ctx_le_on(m1.push((id, bv1)), m2.push((id, bv2)), x)) by {
                    if bv1.contains(x) {
                        lemma_live_vars_le_on(
                            m1.push((id, Set::empty())),
                            m2.push((id, Set::empty())),
                            *body,
                            x,
                        );
                    }
                    assert forall|i: int|
                        #![trigger m1.push((id, bv1))[i], m2.push((id, bv2))[i]]
                        0 <= i < m1.len() + 1 implies m1.push((id, bv1))[i].0 == m2.push(
                        (id, bv2),
                    )[i].0 && (m1.push((id, bv1))[i].1.contains(x) ==> m2.push(
                        (id, bv2),
                    )[i].1.contains(x)) by {
                        if i < m1.len() {
                            assert(m1.push((id, bv1))[i] == m1[i]);
                            assert(m2.push((id, bv2))[i] == m2[i]);
                        }
                    }
                }
                lemma_live_vars_le_on(m1.push((id, bv1)), m2.push((id, bv2)), *remainder, x);
            }
        },
        Stmt::Jump(id, _) => {
            if lookup_live(m1, id).contains(x) {
                lemma_lookup_le_on(m1, m2, id, x);
            }
        },
        Stmt::Invoke { pass, fail, .. } => {
            if live_vars(m1, *pass).contains(x) {
                lemma_live_vars_le_on(m1, m2, *pass, x);
            } else if live_vars(m1, *fail).contains(x) {
                lemma_live_vars_le_on(m1, m2, *fail, x);
            }
        },
        Stmt::Resume(_) => {},
        Stmt::RuntimeError(_) => {},
    }
}

/// `lemma_live_vars_le_on`, over a branch list.
pub proof fn lemma_branches_live_vars_le_on(m1: LiveCtx, m2: LiveCtx, b: Branches, x: Symbol)
    requires
        ctx_le_on(m1, m2, x),
        branches_live_vars(m1, b).contains(x),
    ensures
        branches_live_vars(m2, b).contains(x),
    decreases b,
{
    match b {
        Branches::Nil => {},
        Branches::Cons { body, rest, .. } => {
            if live_vars(m1, body).contains(x) {
                lemma_live_vars_le_on(m1, m2, body, x);
            } else {
                lemma_branches_live_vars_le_on(m1, m2, *rest, x);
            }
        },
    }
}


/// Pushing x-monotone bindings onto the same context keeps the contexts
/// x-monotone.
pub proof fn lemma_ctx_le_on_push(m: LiveCtx, id: JoinPointId, a: Set<Symbol>, b: Set<Symbol>, x: Symbol)
    requires
        a.contains(x) ==> b.contains(x),
    ensures
        ctx_le_on(m.push((id, a)), m.push((id, b)), x),
{
    assert forall|i: int|
        #![trigger m.push((id, a))[i], m.push((id, b))[i]]
        0 <= i < m.len() + 1 implies m.push((id, a))[i].0 == m.push((id, b))[i].0 && (m.push(
        (id, a),
    )[i].1.contains(x) ==> m.push((id, b))[i].1.contains(x)) by {
        if i < m.len() {
            assert(m.push((id, a))[i] == m[i]);
            assert(m.push((id, b))[i] == m[i]);
        }
    }
}

} // verus!
