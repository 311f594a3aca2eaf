//! The reuse-insertion pass: a layout-compatibility predicate, a search step
//! that turns the first compatible `Tag` allocation of a subtree into a
//! `Reuse` of a dying cell, a drop-elimination step that finds where a donor
//! symbol is provably dead and plants a `Reset` there, and a recursive
//! driver that offers every union-typed switch scrutinee as a donor to its
//! branches.

use vstd::prelude::*;

use crate::ir::{
    binds, branches_bind, branches_idents_below, branches_scrutinees_unbound, expr_uses,
    jumps_bound, lemma_branches_idents_below_le, lemma_idents_below_le, scrutinees_unbound,
    stmt_idents_below, stmt_reuse_free, stmt_supported, sym_below, Branches, Expr, Layout,
    ModifyRc, Proc, Stmt, Symbol, UnionLayout,
};
use crate::liveness::{
    collect_stmt, ctx_ids, has_live_var, has_live_var_expr, lemma_ctx_ids_push, live_vars,
    JoinLiveness, LiveCtx, VarSet,
};

verus! {

/// The donor: the layout of the dying cell and the tag id of its matched
/// variant.
#[derive(Clone, Copy, PartialEq, Eq, Structural, Debug)]
pub struct CtorInfo {
    pub id: u8,
    pub layout: UnionLayout,
}

/// Whether a cell of the layout carrying the given tag exists as an
/// addressable memory block.  A tag encoded as a null sentinel has no block.
pub open spec fn tag_has_block(l: UnionLayout, tag: u8) -> bool {
    match l {
        UnionLayout::NonRecursive(_) => true,
        UnionLayout::Recursive(_) => true,
        UnionLayout::NonNullableUnwrapped(_) => true,
        UnionLayout::NullableWrapped { nullable_id, .. } => tag as i64 != nullable_id,
        UnionLayout::NullableUnwrapped { nullable_id, .. } => (tag != 0) != nullable_id,
    }
}

/// Whether the donor's cell can host a new value of the candidate layout:
/// the layouts must be structurally identical and the donor's variant must
/// actually own a memory block.
pub open spec fn spec_may_reuse(tag_layout: UnionLayout, other: CtorInfo) -> bool {
    tag_layout == other.layout && tag_has_block(other.layout, other.id)
}

/// Decide whether a dying cell described by `other` can host a new value of
/// union layout `tag_layout` with tag `_tag_id`.  Differing layouts are
/// always rejected, and so is a donor whose tag the layout encodes as null:
/// such a variant has no memory to reuse.  The candidate's own tag id is
/// deliberately not examined: only the donor must own an addressable
/// block, and the reuse always rewrites the stored tag id.
pub fn may_reuse(tag_layout: UnionLayout, _tag_id: u8, other: &CtorInfo) -> (r: bool)
    ensures
        r == spec_may_reuse(tag_layout, *other),
{
    if tag_layout != other.layout {
        return false;
    }
    match other.layout {
        UnionLayout::NonRecursive(_) => true,
        UnionLayout::Recursive(_) => true,
        UnionLayout::NonNullableUnwrapped(_) => true,
        UnionLayout::NullableWrapped { nullable_id, .. } => other.id as i64 != nullable_id,
        UnionLayout::NullableUnwrapped { nullable_id, .. } => (other.id != 0) != nullable_id,
    }
}

/// The per-module identifier table used to mint fresh symbols.
pub struct IdentIds {
    pub next: u64,
}

impl IdentIds {
    /// A table that has minted nothing beyond `start`.
    pub fn new(start: u64) -> (r: IdentIds)
        ensures
            r.next == start,
    {
        IdentIds { next: start }
    }

    /// Mint the next identifier: strictly monotone, so no identifier is
    /// ever handed out twice.  The caller keeps the counter below its
    /// maximum (a machine limit).
    pub fn gen_unique(&mut self) -> (r: u64)
        requires
            old(self).next < u64::MAX,
        ensures
            r == old(self).next,
            final(self).next == old(self).next + 1,
    {
        let r = self.next;
        self.next = self.next + 1;
        r
    }
}

/// The rewrite environment: the home module for minted symbols, the
/// identifier table, and the scoped join-liveness context.  Its lifetime is
/// one procedure's transformation.
pub struct Env {
    pub home: u32,
    pub ident_ids: IdentIds,
    pub jp_live_vars: JoinLiveness,
}

impl Env {
    /// Mint a symbol unique within the compilation unit: the counter is
    /// strictly monotone, so repeated mints never return the same symbol.
    pub fn unique_symbol(&mut self) -> (r: Symbol)
        requires
            old(self).ident_ids.next < u64::MAX,
        ensures
            r == (Symbol { module: old(self).home, ident: old(self).ident_ids.next }),
            final(self).home == old(self).home,
            final(self).jp_live_vars == old(self).jp_live_vars,
            final(self).ident_ids.next == old(self).ident_ids.next + 1,
    {
        let ident = self.ident_ids.gen_unique();
        Symbol { module: self.home, ident }
    }
}

/// Whether the expression is a `Tag` construction the donor can host.
pub open spec fn reusable_tag(e: Expr, c: CtorInfo) -> bool {
    match e {
        Expr::Tag { tag_layout, .. } => spec_may_reuse(tag_layout, c),
        _ => false,
    }
}

/// The `Reuse` that rebuilds the same tagged value as the `Tag` expression
/// inside the donor cell `w`.  The stored tag id is always rewritten, since
/// the donor's prior tag may differ from the target's.
pub open spec fn reuse_expr(e: Expr, w: Symbol) -> Expr {
    match e {
        Expr::Tag { tag_layout, tag_id, tag_name, arguments } => Expr::Reuse {
            symbol: w,
            update_tag_id: true,
            tag_layout,
            tag_id,
            tag_name,
            arguments,
        },
        _ => e,
    }
}

/// Whether the search step finds a compatible `Tag` allocation along its
/// traversal of the subtree.
pub open spec fn search_found(c: CtorInfo, s: Stmt) -> bool
    decreases s,
{
    match s {
        Stmt::Let(_, e, _, cont) => reusable_tag(e, c) || search_found(c, *cont),
        Stmt::Switch { branches, default_branch, .. } => branches_search_found(c, *branches)
            || search_found(c, *default_branch),
        Stmt::Ret(_) => false,
        Stmt::Refcounting(_, cont) => search_found(c, *cont),
        Stmt::Join { body, remainder, .. } => search_found(c, *body) || search_found(
            c,
            *remainder,
        ),
        Stmt::Jump(_, _) => false,
        Stmt::Invoke { pass, fail, .. } => search_found(c, *pass) || search_found(c, *fail),
        Stmt::Resume(_) => false,
        Stmt::RuntimeError(_) => false,
    }
}

/// `search_found`, over a branch list.
pub open spec fn branches_search_found(c: CtorInfo, b: Branches) -> bool
    decreases b,
{
    match b {
        Branches::Nil => false,
        Branches::Cons { body, rest, .. } => search_found(c, body) || branches_search_found(
            c,
            *rest,
        ),
    }
}

/// How the search step's output `t` relates to its input `s`: the first
/// compatible `Tag` along a sequential chain becomes a `Reuse` of `w` and
/// the chain then stops changing; the branches of a `Switch` and the two
/// continuations of an `Invoke` are searched independently; a `Join`'s body
/// is searched first and its remainder only if the body did not change; and
/// a subtree in which nothing is found is returned unchanged.
pub open spec fn search_rel(w: Symbol, c: CtorInfo, s: Stmt, t: Stmt) -> bool
    decreases s,
{
    match s {
        Stmt::Let(sym, e, l, cont) => {
            if reusable_tag(e, c) {
                t matches Stmt::Let(s2, e2, l2, c2) && s2 == sym && e2 == reuse_expr(e, w) && l2
                    == l && c2 == cont
            } else {
                t matches Stmt::Let(s2, e2, l2, c2) && s2 == sym && e2 == e && l2 == l
                    && search_rel(w, c, *cont, *c2)
            }
        },
        Stmt::Switch { cond_symbol, cond_layout, branches, default_branch, ret_layout } => {
            t matches Stmt::Switch {
                cond_symbol: cs2,
                cond_layout: cl2,
                branches: b2,
                default_branch: d2,
                ret_layout: rl2,
            } && cs2 == cond_symbol && cl2 == cond_layout && rl2 == ret_layout
                && branches_search_rel(w, c, *branches, *b2) && search_rel(
                w,
                c,
                *default_branch,
                *d2,
            )
        },
        Stmt::Ret(_) => t == s,
        Stmt::Refcounting(op, cont) => {
            t matches Stmt::Refcounting(op2, c2) && op2 == op && search_rel(w, c, *cont, *c2)
        },
        Stmt::Join { id, parameters, body, remainder } => {
            t matches Stmt::Join { id: id2, parameters: p2, body: b2, remainder: r2 } && id2 == id
                && p2 == parameters && (if search_found(c, *body) {
                search_rel(w, c, *body, *b2) && r2 == remainder
            } else {
                *b2 == *body && search_rel(w, c, *remainder, *r2)
            })
        },
        Stmt::Jump(_, _) => t == s,
        Stmt::Invoke { symbol, call, layout, pass, fail, exception_id } => {
            t matches Stmt::Invoke {
                symbol: s2,
                call: c2,
                layout: l2,
                pass: p2,
                fail: f2,
                exception_id: e2,
            } && s2 == symbol && c2 == call && l2 == layout && e2 == exception_id && search_rel(
                w,
                c,
                *pass,
                *p2,
            ) && search_rel(w, c, *fail, *f2)
        },
        Stmt::Resume(_) => t == s,
        Stmt::RuntimeError(_) => t == s,
    }
}

/// `search_rel`, over a branch list.
pub open spec fn branches_search_rel(w: Symbol, c: CtorInfo, b: Branches, t: Branches) -> bool
    decreases b,
{
    match b {
        Branches::Nil => t matches Branches::Nil,
        Branches::Cons { tag, body, rest } => {
            t matches Branches::Cons { tag: t2, body: bd2, rest: r2 } && t2 == tag && search_rel(
                w,
                c,
                body,
                bd2,
            ) && branches_search_rel(w, c, *rest, *r2)
        },
    }
}

/// The search step: replace the first compatible `Tag` construction
/// reachable along the traversal with a `Reuse` of the donor cell `w`, and
/// report whether one was found.  A subtree without a match comes back
/// unchanged, so callers can detect the no-op cheaply.
pub fn function_s(w: Symbol, c: &CtorInfo, stmt: Stmt) -> (r: (Stmt, bool))
    ensures
        r.1 == search_found(*c, stmt),
        search_rel(w, *c, stmt, r.0),
        !r.1 ==> r.0 == stmt,
    decreases stmt,
{
    match stmt {
        Stmt::Let(sym, e, l, cont) => {
            let hit = match &e {
                Expr::Tag { tag_layout, tag_id, .. } => may_reuse(*tag_layout, *tag_id, c),
                _ => false,
            };
            if hit {
                match e {
                    Expr::Tag { tag_layout, tag_id, tag_name, arguments } => {
                        let new_expr = Expr::Reuse {
                            symbol: w,
                            update_tag_id: true,
                            tag_layout,
                            tag_id,
                            tag_name,
                            arguments,
                        };
                        (Stmt::Let(sym, new_expr, l, cont), true)
                    },
                    _ => {
                        proof {
                            assert(false);
                        }
                        (Stmt::Ret(sym), false)
                    },
                }
            } else {
                let (s2, found) = function_s(w, c, *cont);
                (Stmt::Let(sym, e, l, Box::new(s2)), found)
            }
        },
        Stmt::Switch { cond_symbol, cond_layout, branches, default_branch, ret_layout } => {
            let (b2, bf) = function_s_branches(w, c, *branches);
            let (d2, df) = function_s(w, c, *default_branch);
            (
                Stmt::Switch {
                    cond_symbol,
                    cond_layout,
                    branches: Box::new(b2),
                    default_branch: Box::new(d2),
                    ret_layout,
                },
                bf || df,
            )
        },
        Stmt::Ret(x) => (Stmt::Ret(x), false),
        Stmt::Refcounting(op, cont) => {
            let (s2, found) = function_s(w, c, *cont);
            (Stmt::Refcounting(op, Box::new(s2)), found)
        },
        Stmt::Join { id, parameters, body, remainder } => {
            let (b2, bf) = function_s(w, c, *body);
            if bf {
                (Stmt::Join { id, parameters, body: Box::new(b2), remainder }, true)
            } else {
                let (r2, rf) = function_s(w, c, *remainder);
                (
                    Stmt::Join {
                        id,
                        parameters,
                        body: Box::new(b2),
                        remainder: Box::new(r2),
                    },
                    rf,
                )
            }
        },
        Stmt::Jump(id, args) => (Stmt::Jump(id, args), false),
        Stmt::Invoke { symbol, call, layout, pass, fail, exception_id } => {
            let (p2, pf) = function_s(w, c, *pass);
            let (f2, ff) = function_s(w, c, *fail);
            (
                Stmt::Invoke {
                    symbol,
                    call,
                    layout,
                    pass: Box::new(p2),
                    fail: Box::new(f2),
                    exception_id,
                },
                pf || ff,
            )
        },
        Stmt::Resume(x) => (Stmt::Resume(x), false),
        Stmt::RuntimeError(x) => (Stmt::RuntimeError(x), false),
    }
}

/// The search step, over a branch list; each branch is searched
/// independently.
pub fn function_s_branches(w: Symbol, c: &CtorInfo, b: Branches) -> (r: (Branches, bool))
    ensures
        r.1 == branches_search_found(*c, b),
        branches_search_rel(w, *c, b, r.0),
        !r.1 ==> r.0 == b,
    decreases b,
{
    match b {
        Branches::Nil => (Branches::Nil, false),
        Branches::Cons { tag, body, rest } => {
            let (bd2, bf) = function_s(w, c, body);
            let (r2, rf) = function_s_branches(w, c, *rest);
            (Branches::Cons { tag, body: bd2, rest: Box::new(r2) }, bf || rf)
        },
    }
}


/// An upper bound on how many fresh symbols one drop-elimination scan of
/// the statement can mint: one possible reset per `Let`, and one per
/// branch and default of every `Switch`.
pub open spec fn mint_allowance(s: Stmt) -> nat
    decreases s,
{
    match s {
        Stmt::Let(_, _, _, cont) => 1 + mint_allowance(*cont),
        Stmt::Switch { branches, default_branch, .. } => branches_mint_allowance(*branches)
            + mint_allowance(*default_branch) + 1,
        Stmt::Ret(_) => 0,
        Stmt::Refcounting(_, cont) => mint_allowance(*cont),
        Stmt::Join { body, remainder, .. } => mint_allowance(*body) + mint_allowance(*remainder),
        Stmt::Jump(_, _) => 0,
        Stmt::Invoke { pass, fail, .. } => mint_allowance(*pass) + mint_allowance(*fail),
        Stmt::Resume(_) => 0,
        Stmt::RuntimeError(_) => 0,
    }
}

/// `mint_allowance`, over a branch list.
pub open spec fn branches_mint_allowance(b: Branches) -> nat
    decreases b,
{
    match b {
        Branches::Nil => 0,
        Branches::Cons { body, rest, .. } => mint_allowance(body) + 1 + branches_mint_allowance(
            *rest,
        ),
    }
}

/// How the strip step's output `t` relates to its input `s`: along every
/// control path, the first decrement of the donor `x` is removed, its
/// effect having been absorbed by the `Reset` planted above; everything
/// else is kept.
pub open spec fn strip_rel(x: Symbol, s: Stmt, t: Stmt) -> bool
    decreases s,
{
    match s {
        Stmt::Let(sym, e, l, cont) => {
            t matches Stmt::Let(s2, e2, l2, c2) && s2 == sym && e2 == e && l2 == l && strip_rel(
                x,
                *cont,
                *c2,
            )
        },
        Stmt::Switch { cond_symbol, cond_layout, branches, default_branch, ret_layout } => {
            t matches Stmt::Switch {
                cond_symbol: cs2,
                cond_layout: cl2,
                branches: b2,
                default_branch: d2,
                ret_layout: rl2,
            } && cs2 == cond_symbol && cl2 == cond_layout && rl2 == ret_layout
                && branches_strip_rel(x, *branches, *b2) && strip_rel(x, *default_branch, *d2)
        },
        Stmt::Ret(_) => t == s,
        Stmt::Refcounting(op, cont) => {
            if op == ModifyRc::Dec(x) {
                t == *cont
            } else {
                t matches Stmt::Refcounting(op2, c2) && op2 == op && strip_rel(x, *cont, *c2)
            }
        },
        Stmt::Join { id, parameters, body, remainder } => {
            t matches Stmt::Join { id: id2, parameters: p2, body: b2, remainder: r2 } && id2 == id
                && p2 == parameters && strip_rel(x, *body, *b2) && strip_rel(x, *remainder, *r2)
        },
        Stmt::Jump(_, _) => t == s,
        Stmt::Invoke { .. } => t == s,
        Stmt::Resume(_) => t == s,
        Stmt::RuntimeError(_) => t == s,
    }
}

/// `strip_rel`, over a branch list.
pub open spec fn branches_strip_rel(x: Symbol, b: Branches, t: Branches) -> bool
    decreases b,
{
    match b {
        Branches::Nil => t matches Branches::Nil,
        Branches::Cons { tag, body, rest } => {
            t matches Branches::Cons { tag: t2, body: bd2, rest: r2 } && t2 == tag && strip_rel(
                x,
                body,
                bd2,
            ) && branches_strip_rel(x, *rest, *r2)
        },
    }
}

/// Remove the first decrement of the donor along every control path; the
/// planted `Reset` carries that decrement's effect.
pub fn strip_first_dec(x: Symbol, stmt: Stmt) -> (r: Stmt)
    ensures
        strip_rel(x, stmt, r),
    decreases stmt,
{
    match stmt {
        Stmt::Let(sym, e, l, cont) => {
            let c2 = strip_first_dec(x, *cont);
            Stmt::Let(sym, e, l, Box::new(c2))
        },
        Stmt::Switch { cond_symbol, cond_layout, branches, default_branch, ret_layout } => {
            let b2 = strip_first_dec_branches(x, *branches);
            let d2 = strip_first_dec(x, *default_branch);
            Stmt::Switch {
                cond_symbol,
                cond_layout,
                branches: Box::new(b2),
                default_branch: Box::new(d2),
                ret_layout,
            }
        },
        Stmt::Ret(y) => Stmt::Ret(y),
        Stmt::Refcounting(op, cont) => {
            if op == ModifyRc::Dec(x) {
                *cont
            } else {
                let c2 = strip_first_dec(x, *cont);
                Stmt::Refcounting(op, Box::new(c2))
            }
        },
        Stmt::Join { id, parameters, body, remainder } => {
            let b2 = strip_first_dec(x, *body);
            let r2 = strip_first_dec(x, *remainder);
            Stmt::Join { id, parameters, body: Box::new(b2), remainder: Box::new(r2) }
        },
        Stmt::Jump(id, args) => Stmt::Jump(id, args),
        s @ Stmt::Invoke { .. } => s,
        Stmt::Resume(y) => Stmt::Resume(y),
        Stmt::RuntimeError(y) => Stmt::RuntimeError(y),
    }
}

/// `strip_first_dec`, over a branch list.
pub fn strip_first_dec_branches(x: Symbol, b: Branches) -> (r: Branches)
    ensures
        branches_strip_rel(x, b, r),
    decreases b,
{
    match b {
        Branches::Nil => Branches::Nil,
        Branches::Cons { tag, body, rest } => {
            let bd2 = strip_first_dec(x, body);
            let r2 = strip_first_dec_branches(x, *rest);
            Branches::Cons { tag, body: bd2, rest: Box::new(r2) }
        },
    }
}

/// The search step's output covers the same jump targets as its input and
/// stays within the analysed statement forms.
pub proof fn lemma_search_preserves(
    w: Symbol,
    c: CtorInfo,
    s: Stmt,
    t: Stmt,
    bound: Set<crate::ir::JoinPointId>,
)
    requires
        search_rel(w, c, s, t),
    ensures
        stmt_supported(s) ==> stmt_supported(t),
        jumps_bound(s, bound) ==> jumps_bound(t, bound),
        mint_allowance(t) == mint_allowance(s),
    decreases s,
{
    match s {
        Stmt::Let(sym, e, l, cont) => {
            if !reusable_tag(e, c) {
                match t {
                    Stmt::Let(_, _, _, c2) => {
                        lemma_search_preserves(w, c, *cont, *c2, bound);
                    },
                    _ => {},
                }
            }
        },
        Stmt::Switch { branches, default_branch, .. } => {
            match t {
                Stmt::Switch { branches: b2, default_branch: d2, .. } => {
                    lemma_branches_search_preserves(w, c, *branches, *b2, bound);
                    lemma_search_preserves(w, c, *default_branch, *d2, bound);
                },
                _ => {},
            }
        },
        Stmt::Refcounting(_, cont) => {
            match t {
                Stmt::Refcounting(_, c2) => {
                    lemma_search_preserves(w, c, *cont, *c2, bound);
                },
                _ => {},
            }
        },
        Stmt::Join { id, body, remainder, .. } => {
            match t {
                Stmt::Join { body: b2, remainder: r2, .. } => {
                    if search_found(c, *body) {
                        lemma_search_preserves(w, c, *body, *b2, bound.insert(id));
                    } else {
                        lemma_search_preserves(w, c, *remainder, *r2, bound.insert(id));
                    }
                },
                _ => {},
            }
        },
        Stmt::Invoke { pass, fail, .. } => {
            match t {
                Stmt::Invoke { pass: p2, fail: f2, .. } => {
                    lemma_search_preserves(w, c, *pass, *p2, bound);
                    lemma_search_preserves(w, c, *fail, *f2, bound);
                },
                _ => {},
            }
        },
        _ => {},
    }
}

/// `lemma_search_preserves`, over a branch list.
pub proof fn lemma_branches_search_preserves(
    w: Symbol,
    c: CtorInfo,
    b: Branches,
    t: Branches,
    bound: Set<crate::ir::JoinPointId>,
)
    requires
        branches_search_rel(w, c, b, t),
    ensures
        crate::ir::branches_supported(b) ==> crate::ir::branches_supported(t),
        crate::ir::branches_jumps_bound(b, bound) ==> crate::ir::branches_jumps_bound(t, bound),
        branches_mint_allowance(t) == branches_mint_allowance(b),
    decreases b,
{
    match b {
        Branches::Nil => {},
        Branches::Cons { body, rest, .. } => {
            match t {
                Branches::Cons { body: bd2, rest: r2, .. } => {
                    lemma_search_preserves(w, c, body, bd2, bound);
                    lemma_branches_search_preserves(w, c, *rest, *r2, bound);
                },
                _ => {},
            }
        },
    }
}

/// The strip step's output covers the same jump targets as its input and
/// stays within the analysed statement forms.
pub proof fn lemma_strip_preserves(x: Symbol, s: Stmt, t: Stmt, bound: Set<crate::ir::JoinPointId>)
    requires
        strip_rel(x, s, t),
    ensures
        stmt_supported(s) ==> stmt_supported(t),
        jumps_bound(s, bound) ==> jumps_bound(t, bound),
        mint_allowance(t) == mint_allowance(s),
    decreases s,
{
    match s {
        Stmt::Let(_, _, _, cont) => {
            match t {
                Stmt::Let(_, _, _, c2) => {
                    lemma_strip_preserves(x, *cont, *c2, bound);
                },
                _ => {},
            }
        },
        Stmt::Switch { branches, default_branch, .. } => {
            match t {
                Stmt::Switch { branches: b2, default_branch: d2, .. } => {
                    lemma_branches_strip_preserves(x, *branches, *b2, bound);
                    lemma_strip_preserves(x, *default_branch, *d2, bound);
                },
                _ => {},
            }
        },
        Stmt::Refcounting(op, cont) => {
            if op == ModifyRc::Dec(x) {
                assert(strip_rel(x, s, t));
            } else {
                match t {
                    Stmt::Refcounting(_, c2) => {
                        lemma_strip_preserves(x, *cont, *c2, bound);
                    },
                    _ => {},
                }
            }
        },
        Stmt::Join { id, body, remainder, .. } => {
            match t {
                Stmt::Join { body: b2, remainder: r2, .. } => {
                    lemma_strip_preserves(x, *body, *b2, bound.insert(id));
                    lemma_strip_preserves(x, *remainder, *r2, bound.insert(id));
                },
                _ => {},
            }
        },
        _ => {},
    }
}

/// `lemma_strip_preserves`, over a branch list.
pub proof fn lemma_branches_strip_preserves(
    x: Symbol,
    b: Branches,
    t: Branches,
    bound: Set<crate::ir::JoinPointId>,
)
    requires
        branches_strip_rel(x, b, t),
    ensures
        crate::ir::branches_supported(b) ==> crate::ir::branches_supported(t),
        crate::ir::branches_jumps_bound(b, bound) ==> crate::ir::branches_jumps_bound(t, bound),
        branches_mint_allowance(t) == branches_mint_allowance(b),
    decreases b,
{
    match b {
        Branches::Nil => {},
        Branches::Cons { body, rest, .. } => {
            match t {
                Branches::Cons { body: bd2, rest: r2, .. } => {
                    lemma_strip_preserves(x, body, bd2, bound);
                    lemma_branches_strip_preserves(x, *rest, *r2, bound);
                },
                _ => {},
            }
        },
    }
}

/// The search step introduces no symbol beyond the donor cell `w`: a tree
/// whose symbols stay below the counter stays below it when `w` does.
pub proof fn lemma_search_idents_below(
    w: Symbol,
    c: CtorInfo,
    s: Stmt,
    t: Stmt,
    module: u32,
    n: u64,
)
    requires
        search_rel(w, c, s, t),
        stmt_idents_below(s, module, n),
        sym_below(w, module, n),
    ensures
        stmt_idents_below(t, module, n),
    decreases s,
{
    match s {
        Stmt::Let(_, e, _, cont) => {
            match t {
                Stmt::Let(_, e2, _, c2) => {
                    if reusable_tag(e, c) {
                        assert forall|y: Symbol| #[trigger] expr_uses(e2, y) implies sym_below(
                            y,
                            module,
                            n,
                        ) by {
                            if y != w {
                                assert(expr_uses(e, y));
                            }
                        }
                    } else {
                        lemma_search_idents_below(w, c, *cont, *c2, module, n);
                    }
                },
                _ => {},
            }
        },
        Stmt::Switch { branches, default_branch, .. } => {
            match t {
                Stmt::Switch { branches: b2, default_branch: d2, .. } => {
                    lemma_branches_search_idents_below(w, c, *branches, *b2, module, n);
                    lemma_search_idents_below(w, c, *default_branch, *d2, module, n);
                },
                _ => {},
            }
        },
        Stmt::Refcounting(_, cont) => {
            match t {
                Stmt::Refcounting(_, c2) => {
                    lemma_search_idents_below(w, c, *cont, *c2, module, n);
                },
                _ => {},
            }
        },
        Stmt::Join { body, remainder, .. } => {
            match t {
                Stmt::Join { body: b2, remainder: r2, .. } => {
                    if search_found(c, *body) {
                        lemma_search_idents_below(w, c, *body, *b2, module, n);
                    } else {
                        lemma_search_idents_below(w, c, *remainder, *r2, module, n);
                    }
                },
                _ => {},
            }
        },
        Stmt::Invoke { pass, fail, .. } => {
            match t {
                Stmt::Invoke { pass: p2, fail: f2, .. } => {
                    lemma_search_idents_below(w, c, *pass, *p2, module, n);
                    lemma_search_idents_below(w, c, *fail, *f2, module, n);
                },
                _ => {},
            }
        },
        _ => {},
    }
}

/// `lemma_search_idents_below`, over a branch list.
pub proof fn lemma_branches_search_idents_below(
    w: Symbol,
    c: CtorInfo,
    b: Branches,
    t: Branches,
    module: u32,
    n: u64,
)
    requires
        branches_search_rel(w, c, b, t),
        branches_idents_below(b, module, n),
        sym_below(w, module, n),
    ensures
        branches_idents_below(t, module, n),
    decreases b,
{
    match b {
        Branches::Nil => {},
        Branches::Cons { body, rest, .. } => {
            match t {
                Branches::Cons { body: bd2, rest: r2, .. } => {
                    lemma_search_idents_below(w, c, body, bd2, module, n);
                    lemma_branches_search_idents_below(w, c, *rest, *r2, module, n);
                },
                _ => {},
            }
        },
    }
}

/// The strip step introduces no symbol at all.
pub proof fn lemma_strip_idents_below(xd: Symbol, s: Stmt, t: Stmt, module: u32, n: u64)
    requires
        strip_rel(xd, s, t),
        stmt_idents_below(s, module, n),
    ensures
        stmt_idents_below(t, module, n),
    decreases s,
{
    match s {
        Stmt::Let(_, _, _, cont) => {
            match t {
                Stmt::Let(_, _, _, c2) => {
                    lemma_strip_idents_below(xd, *cont, *c2, module, n);
                },
                _ => {},
            }
        },
        Stmt::Switch { branches, default_branch, .. } => {
            match t {
                Stmt::Switch { branches: b2, default_branch: d2, .. } => {
                    lemma_branches_strip_idents_below(xd, *branches, *b2, module, n);
                    lemma_strip_idents_below(xd, *default_branch, *d2, module, n);
                },
                _ => {},
            }
        },
        Stmt::Refcounting(op, cont) => {
            if op == ModifyRc::Dec(xd) {
            } else {
                match t {
                    Stmt::Refcounting(_, c2) => {
                        lemma_strip_idents_below(xd, *cont, *c2, module, n);
                    },
                    _ => {},
                }
            }
        },
        Stmt::Join { body, remainder, .. } => {
            match t {
                Stmt::Join { body: b2, remainder: r2, .. } => {
                    lemma_strip_idents_below(xd, *body, *b2, module, n);
                    lemma_strip_idents_below(xd, *remainder, *r2, module, n);
                },
                _ => {},
            }
        },
        _ => {},
    }
}

/// `lemma_strip_idents_below`, over a branch list.
pub proof fn lemma_branches_strip_idents_below(xd: Symbol, b: Branches, t: Branches, module: u32, n: u64)
    requires
        branches_strip_rel(xd, b, t),
        branches_idents_below(b, module, n),
    ensures
        branches_idents_below(t, module, n),
    decreases b,
{
    match b {
        Branches::Nil => {},
        Branches::Cons { body, rest, .. } => {
            match t {
                Branches::Cons { body: bd2, rest: r2, .. } => {
                    lemma_strip_idents_below(xd, body, bd2, module, n);
                    lemma_branches_strip_idents_below(xd, *rest, *r2, module, n);
                },
                _ => {},
            }
        },
    }
}

/// The search step binds no new symbol: it only rewrites a `Let`'s
/// expression.
pub proof fn lemma_search_binds(w: Symbol, c: CtorInfo, s: Stmt, t: Stmt, y: Symbol)
    requires
        search_rel(w, c, s, t),
    ensures
        binds(t, y) == binds(s, y),
    decreases s,
{
    match s {
        Stmt::Let(_, e, _, cont) => {
            match t {
                Stmt::Let(_, _, _, c2) => {
                    if !reusable_tag(e, c) {
                        lemma_search_binds(w, c, *cont, *c2, y);
                    }
                },
                _ => {},
            }
        },
        Stmt::Switch { branches, default_branch, .. } => {
            match t {
                Stmt::Switch { branches: b2, default_branch: d2, .. } => {
                    lemma_branches_search_binds(w, c, *branches, *b2, y);
                    lemma_search_binds(w, c, *default_branch, *d2, y);
                },
                _ => {},
            }
        },
        Stmt::Refcounting(_, cont) => {
            match t {
                Stmt::Refcounting(_, c2) => {
                    lemma_search_binds(w, c, *cont, *c2, y);
                },
                _ => {},
            }
        },
        Stmt::Join { body, remainder, .. } => {
            match t {
                Stmt::Join { body: b2, remainder: r2, .. } => {
                    if search_found(c, *body) {
                        lemma_search_binds(w, c, *body, *b2, y);
                    } else {
                        lemma_search_binds(w, c, *remainder, *r2, y);
                    }
                },
                _ => {},
            }
        },
        Stmt::Invoke { pass, fail, .. } => {
            match t {
                Stmt::Invoke { pass: p2, fail: f2, .. } => {
                    lemma_search_binds(w, c, *pass, *p2, y);
                    lemma_search_binds(w, c, *fail, *f2, y);
                },
                _ => {},
            }
        },
        _ => {},
    }
}

/// `lemma_search_binds`, over a branch list.
pub proof fn lemma_branches_search_binds(w: Symbol, c: CtorInfo, b: Branches, t: Branches, y: Symbol)
    requires
        branches_search_rel(w, c, b, t),
    ensures
        branches_bind(t, y) == branches_bind(b, y),
    decreases b,
{
    match b {
        Branches::Nil => {},
        Branches::Cons { body, rest, .. } => {
            match t {
                Branches::Cons { body: bd2, rest: r2, .. } => {
                    lemma_search_binds(w, c, body, bd2, y);
                    lemma_branches_search_binds(w, c, *rest, *r2, y);
                },
                _ => {},
            }
        },
    }
}

/// The strip step binds no new symbol: it only removes a refcount node.
pub proof fn lemma_strip_binds(xd: Symbol, s: Stmt, t: Stmt, y: Symbol)
    requires
        strip_rel(xd, s, t),
    ensures
        binds(t, y) ==> binds(s, y),
    decreases s,
{
    match s {
        Stmt::Let(_, _, _, cont) => {
            match t {
                Stmt::Let(_, _, _, c2) => {
                    lemma_strip_binds(xd, *cont, *c2, y);
                },
                _ => {},
            }
        },
        Stmt::Switch { branches, default_branch, .. } => {
            match t {
                Stmt::Switch { branches: b2, default_branch: d2, .. } => {
                    lemma_branches_strip_binds(xd, *branches, *b2, y);
                    lemma_strip_binds(xd, *default_branch, *d2, y);
                },
                _ => {},
            }
        },
        Stmt::Refcounting(op, cont) => {
            if op == ModifyRc::Dec(xd) {
            } else {
                match t {
                    Stmt::Refcounting(_, c2) => {
                        lemma_strip_binds(xd, *cont, *c2, y);
                    },
                    _ => {},
                }
            }
        },
        Stmt::Join { body, remainder, .. } => {
            match t {
                Stmt::Join { body: b2, remainder: r2, .. } => {
                    lemma_strip_binds(xd, *body, *b2, y);
                    lemma_strip_binds(xd, *remainder, *r2, y);
                },
                _ => {},
            }
        },
        _ => {},
    }
}

/// `lemma_strip_binds`, over a branch list.
pub proof fn lemma_branches_strip_binds(xd: Symbol, b: Branches, t: Branches, y: Symbol)
    requires
        branches_strip_rel(xd, b, t),
    ensures
        branches_bind(t, y) ==> branches_bind(b, y),
    decreases b,
{
    match b {
        Branches::Nil => {},
        Branches::Cons { body, rest, .. } => {
            match t {
                Branches::Cons { body: bd2, rest: r2, .. } => {
                    lemma_strip_binds(xd, body, bd2, y);
                    lemma_branches_strip_binds(xd, *rest, *r2, y);
                },
                _ => {},
            }
        },
    }
}

/// How a drop-elimination attempt's output relates to its input: when the
/// search finds no compatible allocation, the subtree comes back unchanged
/// and in particular no orphan `Reset` is ever planted; when it finds one,
/// the output binds a fresh symbol to `Reset` of the donor, above the
/// searched subtree with the donor's first pending decrement removed.
pub open spec fn try_rel(x: Symbol, c: CtorInfo, s: Stmt, t: Stmt) -> bool {
    if search_found(c, s) {
        t matches Stmt::Let(w2, e2, l2, inner) && e2 == Expr::Reset(x) && l2 == Layout::Union(
            c.layout,
        ) && (exists|mid: Stmt| #[trigger] search_rel(w2, c, s, mid) && strip_rel(x, mid, *inner))
    } else {
        t == s
    }
}

/// Attempt a reset-and-reuse at this point: mint a fresh symbol, search the
/// subtree for a compatible allocation, and if one exists, plant
/// `let w = Reset(x)` above the rewritten subtree, dropping the decrement
/// of `x` that the reset absorbs.  If the search finds nothing the subtree
/// is returned unchanged: no speculative reset.  When the subtree
/// branches, the planted reset dominates every path while the reuse lands
/// only on paths holding a compatible allocation, so a path without one
/// ends with a reset cell nothing consumes: the search scans branches
/// independently, and a dominating reset is the price of reusing on any of
/// them.
pub fn try_function_s(env: &mut Env, x: Symbol, c: &CtorInfo, stmt: Stmt) -> (r: Stmt)
    requires
        old(env).ident_ids.next < u64::MAX,
        stmt_idents_below(stmt, old(env).home, old(env).ident_ids.next),
        sym_below(x, old(env).home, old(env).ident_ids.next),
    ensures
        stmt_idents_below(r, old(env).home, final(env).ident_ids.next),
        forall|y: Symbol| #[trigger] binds(r, y) ==> binds(stmt, y) || y == (Symbol {
            module: old(env).home,
            ident: old(env).ident_ids.next,
        }),
        final(env).home == old(env).home,
        final(env).jp_live_vars == old(env).jp_live_vars,
        final(env).ident_ids.next == old(env).ident_ids.next + 1,
        try_rel(x, *c, stmt, r),
        search_found(*c, stmt) ==> (r matches Stmt::Let(w2, _, _, _) && w2 == (Symbol {
            module: old(env).home,
            ident: old(env).ident_ids.next,
        })),
        mint_allowance(r) <= mint_allowance(stmt) + 1,
        stmt_supported(stmt) ==> stmt_supported(r),
        jumps_bound(stmt, ctx_ids(old(env).jp_live_vars@)) ==> jumps_bound(
            r,
            ctx_ids(old(env).jp_live_vars@),
        ),
{
    let ghost h = old(env).home;
    let ghost n0 = old(env).ident_ids.next;
    let w = env.unique_symbol();
    let ghost n1 = env.ident_ids.next;
    let (s2, found) = function_s(w, c, stmt);
    proof {
        lemma_idents_below_le(stmt, h, n0, n1);
    }
    if !found {
        s2
    } else {
        let s3 = strip_first_dec(x, s2);
        proof {
            lemma_search_preserves(w, *c, stmt, s2, ctx_ids(old(env).jp_live_vars@));
            lemma_strip_preserves(x, s2, s3, ctx_ids(old(env).jp_live_vars@));
            lemma_search_idents_below(w, *c, stmt, s2, h, n1);
            lemma_strip_idents_below(x, s2, s3, h, n1);
        }
        let out = Stmt::Let(w, Expr::Reset(x), Layout::Union(c.layout), Box::new(s3));
        proof {
            assert(out matches Stmt::Let(w2, e2, l2, inner) && w2 == w && e2 == Expr::Reset(x)
                && l2 == Layout::Union(c.layout) && *inner == s3);
            assert(search_rel(w, *c, stmt, s2));
            assert(strip_rel(x, s2, s3));
            assert(try_rel(x, *c, stmt, out));
            assert forall|y: Symbol| #[trigger] expr_uses(Expr::Reset(x), y) implies sym_below(
                y,
                h,
                n1,
            ) by {}
            assert forall|y: Symbol| #[trigger] binds(out, y) implies binds(stmt, y) || y
                == w by {
                if y != w {
                    lemma_search_binds(w, *c, stmt, s2, y);
                    lemma_strip_binds(x, s2, s3, y);
                }
            }
        }
        out
    }
}


/// The drop-elimination scan's verdict on a subtree: whether the donor `x`
/// is still needed at or below it — read by an expression, a scrutinee, a
/// terminal, a jump's live set, or kept alive by a refcount increment.  A
/// pending decrement of `x` itself does not count: it is the redundant
/// decrement the pass retargets.
pub open spec fn d_found(m: LiveCtx, x: Symbol, s: Stmt) -> bool
    decreases s,
{
    match s {
        Stmt::Let(_, e, _, cont) => expr_uses(e, x) || d_found(m, x, *cont),
        Stmt::Switch { .. } => live_vars(m, s).contains(x),
        Stmt::Ret(_) => live_vars(m, s).contains(x),
        Stmt::Refcounting(op, cont) => (op.spec_get_symbol() == x && !(op matches ModifyRc::Dec(_)))
            || d_found(m, x, *cont),
        Stmt::Join { id, body, remainder, .. } => {
            let bv = live_vars(m.push((id, Set::empty())), *body);
            d_found(m.push((id, bv)), x, *remainder)
        },
        Stmt::Jump(_, _) => live_vars(m, s).contains(x),
        Stmt::Invoke { .. } => false,
        Stmt::Resume(_) => false,
        Stmt::RuntimeError(_) => false,
    }
}

/// How the drop-elimination scan's output relates to its input.  A `Let`
/// whose expression stores the donor inside a `Tag` is left whole: a
/// self-referential construction cannot reuse its own input.  A `Let` at
/// which the donor's last use occurs, with the donor dead below, gets a
/// reset-and-reuse attempt on its continuation.  A `Switch` in which the
/// donor is live has every branch processed and finalized independently;
/// one in which it is dead is left unchanged.  A `Join` has its body's live
/// set registered while body and remainder are processed.
pub open spec fn d_rel(m: LiveCtx, x: Symbol, c: CtorInfo, s: Stmt, t: Stmt) -> bool
    decreases s,
{
    match s {
        Stmt::Let(sym, e, l, cont) => {
            if e matches Expr::Tag { arguments, .. } && arguments@.contains(x) {
                t == s
            } else if !d_found(m, x, *cont) && expr_uses(e, x) {
                t matches Stmt::Let(s2, e2, l2, c2) && s2 == sym && e2 == e && l2 == l && (
                exists|mid: Stmt|
                    #![trigger d_rel(m, x, c, *cont, mid)]
                    #![trigger try_rel(x, c, mid, *c2)]
                    d_rel(m, x, c, *cont, mid) && try_rel(x, c, mid, *c2))
            } else {
                t matches Stmt::Let(s2, e2, l2, c2) && s2 == sym && e2 == e && l2 == l && d_rel(
                    m,
                    x,
                    c,
                    *cont,
                    *c2,
                )
            }
        },
        Stmt::Switch { cond_symbol, cond_layout, branches, default_branch, ret_layout } => {
            if live_vars(m, s).contains(x) {
                t matches Stmt::Switch {
                    cond_symbol: cs2,
                    cond_layout: cl2,
                    branches: b2,
                    default_branch: d2,
                    ret_layout: rl2,
                } && cs2 == cond_symbol && cl2 == cond_layout && rl2 == ret_layout
                    && branches_d_done_rel(m, x, c, *branches, *b2) && (if d_found(
                    m,
                    x,
                    *default_branch,
                ) {
                    d_rel(m, x, c, *default_branch, *d2)
                } else {
                    exists|mid: Stmt|
                        #![trigger d_rel(m, x, c, *default_branch, mid)]
                        #![trigger try_rel(x, c, mid, *d2)]
                        d_rel(m, x, c, *default_branch, mid) && try_rel(x, c, mid, *d2)
                })
            } else {
                t == s
            }
        },
        Stmt::Ret(_) => t == s,
        Stmt::Refcounting(op, cont) => {
            t matches Stmt::Refcounting(op2, c2) && op2 == op && d_rel(m, x, c, *cont, *c2)
        },
        Stmt::Join { id, parameters, body, remainder } => {
            let bv = live_vars(m.push((id, Set::empty())), *body);
            t matches Stmt::Join { id: id2, parameters: p2, body: b2, remainder: r2 } && id2 == id
                && p2 == parameters && d_rel(m.push((id, bv)), x, c, *body, *b2) && d_rel(
                m.push((id, bv)),
                x,
                c,
                *remainder,
                *r2,
            )
        },
        Stmt::Jump(_, _) => t == s,
        Stmt::Invoke { .. } => t == s,
        Stmt::Resume(_) => t == s,
        Stmt::RuntimeError(_) => t == s,
    }
}

/// The scan followed by its finalize step: where the donor is still needed
/// the scan's own result stands; where it is dead, a reset-and-reuse
/// attempt is made on that result.
#[verifier::opaque]
pub open spec fn d_done_rel(m: LiveCtx, x: Symbol, c: CtorInfo, s: Stmt, t: Stmt) -> bool {
    if d_found(m, x, s) {
        d_rel(m, x, c, s, t)
    } else {
        exists|mid: Stmt|
            #![trigger d_rel(m, x, c, s, mid)]
            #![trigger try_rel(x, c, mid, t)]
            d_rel(m, x, c, s, mid) && try_rel(x, c, mid, t)
    }
}

/// `d_done_rel`, over a branch list: each branch is scanned and finalized
/// independently, since liveness may differ per branch.
pub open spec fn branches_d_done_rel(m: LiveCtx, x: Symbol, c: CtorInfo, b: Branches, t: Branches) -> bool
    decreases b,
{
    match b {
        Branches::Nil => t matches Branches::Nil,
        Branches::Cons { tag, body, rest } => {
            t matches Branches::Cons { tag: t2, body: bd2, rest: r2 } && t2 == tag && (if d_found(
                m,
                x,
                body,
            ) {
                d_rel(m, x, c, body, bd2)
            } else {
                exists|mid: Stmt|
                    #![trigger d_rel(m, x, c, body, mid)]
                    #![trigger try_rel(x, c, mid, bd2)]
                    d_rel(m, x, c, body, mid) && try_rel(x, c, mid, bd2)
            }) && branches_d_done_rel(m, x, c, *rest, *r2)
        },
    }
}

/// The finalize step of drop elimination: if the donor is still live in the
/// subtree, keep it; otherwise attempt the reset-and-reuse substitution,
/// which itself falls back to the unchanged subtree when the search finds
/// nothing.
pub fn function_d_finalize(env: &mut Env, x: Symbol, c: &CtorInfo, output: (Stmt, bool)) -> (r:
    Stmt)
    requires
        old(env).ident_ids.next < u64::MAX,
        stmt_idents_below(output.0, old(env).home, old(env).ident_ids.next),
        sym_below(x, old(env).home, old(env).ident_ids.next),
        stmt_supported(output.0),
        jumps_bound(output.0, ctx_ids(old(env).jp_live_vars@)),
    ensures
        final(env).home == old(env).home,
        final(env).jp_live_vars == old(env).jp_live_vars,
        old(env).ident_ids.next <= final(env).ident_ids.next <= old(env).ident_ids.next + 1,
        stmt_idents_below(r, old(env).home, final(env).ident_ids.next),
        forall|y: Symbol| #[trigger] binds(r, y) ==> binds(output.0, y) || (y.module == old(
            env,
        ).home && old(env).ident_ids.next <= y.ident < final(env).ident_ids.next),
        output.1 ==> r == output.0,
        !output.1 ==> try_rel(x, *c, output.0, r),
        mint_allowance(r) + old(env).ident_ids.next <= mint_allowance(output.0)
            + final(env).ident_ids.next,
        stmt_supported(r),
        jumps_bound(r, ctx_ids(old(env).jp_live_vars@)),
{
    let ghost h = env.home;
    let ghost n0 = env.ident_ids.next;
    let (stmt, x_live) = output;
    if x_live {
        stmt
    } else {
        let r = try_function_s(env, x, c, stmt);
        proof {
            assert forall|y: Symbol| #[trigger] binds(r, y) implies binds(stmt, y) || (y.module
                == h && n0 <= y.ident < env.ident_ids.next) by {}
        }
        r
    }
}


/// The drop-elimination scan: walk the subtree in which the donor's last
/// use occurs, report whether the donor is still needed, and plant a
/// reset-and-reuse at the earliest point past which it is not.
pub fn function_d_main(env: &mut Env, x: Symbol, c: &CtorInfo, stmt: Stmt) -> (r: (Stmt, bool))
    requires
        old(env).ident_ids.next + mint_allowance(stmt) <= u64::MAX,
        stmt_idents_below(stmt, old(env).home, old(env).ident_ids.next),
        sym_below(x, old(env).home, old(env).ident_ids.next),
        !binds(stmt, x),
        stmt_supported(stmt),
        jumps_bound(stmt, ctx_ids(old(env).jp_live_vars@)),
    ensures
        final(env).home == old(env).home,
        final(env).jp_live_vars@ == old(env).jp_live_vars@,
        old(env).ident_ids.next <= final(env).ident_ids.next <= old(env).ident_ids.next
            + mint_allowance(stmt),
        mint_allowance(r.0) + old(env).ident_ids.next <= mint_allowance(stmt)
            + final(env).ident_ids.next,
        stmt_idents_below(r.0, old(env).home, final(env).ident_ids.next),
        forall|y: Symbol| #[trigger] binds(r.0, y) ==> binds(stmt, y) || (y.module == old(
            env,
        ).home && old(env).ident_ids.next <= y.ident < final(env).ident_ids.next),
        r.1 == d_found(old(env).jp_live_vars@, x, stmt),
        d_rel(old(env).jp_live_vars@, x, *c, stmt, r.0),
        stmt_supported(r.0),
        jumps_bound(r.0, ctx_ids(old(env).jp_live_vars@)),
    decreases stmt, 0int,
{
    let ghost m0 = env.jp_live_vars@;
    let ghost h = env.home;
    let ghost n0 = env.ident_ids.next;
    let res = match stmt {
        Stmt::Let(sym, e, l, cont) => {
            let self_ref = match &e {
                Expr::Tag { arguments, .. } => crate::liveness::syms_contains(arguments, x),
                _ => false,
            };
            if self_ref {
                (Stmt::Let(sym, e, l, cont), true)
            } else {
                let (b, found) = function_d_main(env, x, c, *cont);
                let uses = has_live_var_expr(&e, x);
                if found || !uses {
                    let out = Stmt::Let(sym, e, l, Box::new(b));
                    proof {
                        assert forall|y: Symbol| #[trigger] binds(out, y) implies binds(stmt, y)
                            || (y.module == h && n0 <= y.ident < env.ident_ids.next) by {
                            if y != sym {
                                assert(binds(b, y));
                            }
                        }
                        assert forall|y: Symbol| #[trigger] expr_uses(e, y) implies sym_below(
                            y,
                            h,
                            env.ident_ids.next,
                        ) by {}
                    }
                    (out, found)
                } else {
                    let b2 = try_function_s(env, x, c, b);
                    let out = Stmt::Let(sym, e, l, Box::new(b2));
                    proof {
                        assert(exists|mid: Stmt| #[trigger] d_rel(m0, x, *c, *cont, mid)
                            && try_rel(x, *c, mid, b2));
                        assert forall|y: Symbol| #[trigger] binds(out, y) implies binds(stmt, y)
                            || (y.module == h && n0 <= y.ident < env.ident_ids.next) by {
                            if y != sym {
                                assert(binds(b2, y));
                            }
                        }
                        assert forall|y: Symbol| #[trigger] expr_uses(e, y) implies sym_below(
                            y,
                            h,
                            env.ident_ids.next,
                        ) by {}
                    }
                    (out, true)
                }
            }
        },
        Stmt::Switch { .. } => {
            let live = has_live_var(&mut env.jp_live_vars, &stmt, x);
            if !live {
                (stmt, false)
            } else {
                match stmt {
                    Stmt::Switch {
                        cond_symbol,
                        cond_layout,
                        branches,
                        default_branch,
                        ret_layout,
                    } => {
                        let b2 = function_d_branches(env, x, c, *branches);
                        let ghost n_b = env.ident_ids.next;
                        proof {
                            lemma_idents_below_le(*default_branch, h, n0, n_b);
                        }
                        let temp = function_d_main(env, x, c, *default_branch);
                        let d2 = function_d_finalize(env, x, c, temp);
                        let out = Stmt::Switch {
                            cond_symbol,
                            cond_layout,
                            branches: Box::new(b2),
                            default_branch: Box::new(d2),
                            ret_layout,
                        };
                        proof {
                            assert forall|y: Symbol| #[trigger] binds(out, y) implies binds(
                                stmt,
                                y,
                            ) || (y.module == h && n0 <= y.ident < env.ident_ids.next) by {
                                if crate::ir::branches_bind(b2, y) {
                                } else {
                                    assert(binds(d2, y));
                                }
                            }
                            lemma_branches_idents_below_le(b2, h, n_b, env.ident_ids.next);
                        }
                        (out, true)
                    },
                    _ => {
                        proof {
                            assert(false);
                        }
                        (stmt, true)
                    },
                }
            }
        },
        Stmt::Ret(_) => {
            let live = has_live_var(&mut env.jp_live_vars, &stmt, x);
            (stmt, live)
        },
        Stmt::Refcounting(op, cont) => {
            let (b, found) = function_d_main(env, x, c, *cont);
            let is_use = if op.get_symbol() == x {
                match op {
                    ModifyRc::Dec(_) => false,
                    _ => true,
                }
            } else {
                false
            };
            let out = Stmt::Refcounting(op, Box::new(b));
            proof {
                assert forall|y: Symbol| #[trigger] binds(out, y) implies binds(stmt, y) || (
                y.module == h && n0 <= y.ident < env.ident_ids.next) by {
                    assert(binds(b, y));
                }
            }
            (out, is_use || found)
        },
        Stmt::Join { id, parameters, body, remainder } => {
            proof {
                lemma_ctx_ids_push(m0, id, Set::empty());
            }
            env.jp_live_vars.push_scope(id, VarSet::new());
            let bv = collect_stmt(&mut env.jp_live_vars, &body, VarSet::new());
            env.jp_live_vars.pop_scope();
            proof {
                assert(env.jp_live_vars@ =~= m0);
                assert(bv@ =~= live_vars(m0.push((id, Set::empty())), *body));
                lemma_ctx_ids_push(m0, id, bv@);
            }
            env.jp_live_vars.push_scope(id, bv);
            let (b, found) = function_d_main(env, x, c, *remainder);
            proof {
                lemma_idents_below_le(*body, h, n0, env.ident_ids.next);
            }
            let ghost n_rem = env.ident_ids.next;
            let (v, _body_found) = function_d_main(env, x, c, *body);
            env.jp_live_vars.pop_scope();
            let out = Stmt::Join { id, parameters, body: Box::new(v), remainder: Box::new(b) };
            proof {
                assert(env.jp_live_vars@ =~= m0);
                lemma_idents_below_le(b, h, n_rem, env.ident_ids.next);
                assert forall|y: Symbol| #[trigger] binds(out, y) implies binds(stmt, y) || (
                y.module == h && n0 <= y.ident < env.ident_ids.next) by {
                    if !binds(v, y) && !binds(b, y) {
                    } else if binds(v, y) {
                        assert(binds(v, y));
                    } else {
                        assert(binds(b, y));
                    }
                }
            }
            (out, found)
        },
        Stmt::Jump(_, _) => {
            let live = has_live_var(&mut env.jp_live_vars, &stmt, x);
            (stmt, live)
        },
        Stmt::Invoke { .. } => {
            proof {
                assert(false);
            }
            (stmt, false)
        },
        Stmt::Resume(y) => (Stmt::Resume(y), false),
        Stmt::RuntimeError(y) => (Stmt::RuntimeError(y), false),
    };
    proof {
        reveal_with_fuel(d_rel, 2);
        assert(d_rel(m0, x, *c, stmt, res.0));
    }
    res
}

/// The drop-elimination scan and finalize, over a branch list.
pub fn function_d_branches(env: &mut Env, x: Symbol, c: &CtorInfo, b: Branches) -> (r: Branches)
    requires
        old(env).ident_ids.next + branches_mint_allowance(b) <= u64::MAX,
        branches_idents_below(b, old(env).home, old(env).ident_ids.next),
        sym_below(x, old(env).home, old(env).ident_ids.next),
        !branches_bind(b, x),
        crate::ir::branches_supported(b),
        crate::ir::branches_jumps_bound(b, ctx_ids(old(env).jp_live_vars@)),
    ensures
        final(env).home == old(env).home,
        final(env).jp_live_vars@ == old(env).jp_live_vars@,
        old(env).ident_ids.next <= final(env).ident_ids.next <= old(env).ident_ids.next
            + branches_mint_allowance(b),
        branches_mint_allowance(r) + old(env).ident_ids.next <= branches_mint_allowance(b)
            + final(env).ident_ids.next,
        branches_idents_below(r, old(env).home, final(env).ident_ids.next),
        forall|y: Symbol| #[trigger] branches_bind(r, y) ==> branches_bind(b, y) || (y.module
            == old(env).home && old(env).ident_ids.next <= y.ident < final(env).ident_ids.next),
        branches_d_done_rel(old(env).jp_live_vars@, x, *c, b, r),
        crate::ir::branches_supported(r),
        crate::ir::branches_jumps_bound(r, ctx_ids(old(env).jp_live_vars@)),
    decreases b, 1int,
{
    let ghost m0 = env.jp_live_vars@;
    let ghost h = env.home;
    let ghost n0 = env.ident_ids.next;
    let res = match b {
        Branches::Nil => Branches::Nil,
        Branches::Cons { tag, body, rest } => {
            let temp = function_d_main(env, x, c, body);
            let nb = function_d_finalize(env, x, c, temp);
            let ghost n_mid = env.ident_ids.next;
            proof {
                lemma_branches_idents_below_le(*rest, h, n0, n_mid);
            }
            let r2 = function_d_branches(env, x, c, *rest);
            let out = Branches::Cons { tag, body: nb, rest: Box::new(r2) };
            proof {
                lemma_idents_below_le(nb, h, n_mid, env.ident_ids.next);
                if !d_found(m0, x, body) {
                    assert(exists|mid: Stmt| #[trigger] d_rel(m0, x, *c, body, mid) && try_rel(
                        x,
                        *c,
                        mid,
                        nb,
                    ));
                }
                assert forall|y: Symbol| #[trigger] branches_bind(out, y) implies branches_bind(
                    b,
                    y,
                ) || (y.module == h && n0 <= y.ident < env.ident_ids.next) by {
                    if binds(nb, y) {
                        assert(binds(temp.0, y) || (y.module == h && n_mid - 1 <= y.ident));
                        if binds(temp.0, y) {
                            assert(binds(body, y) || (y.module == h && n0 <= y.ident));
                        }
                    } else {
                        assert(crate::ir::branches_bind(r2, y));
                    }
                }
            }
            out
        },
    };
    proof {
        reveal_with_fuel(branches_d_done_rel, 2);
        assert(branches_d_done_rel(m0, x, *c, b, res));
    }
    res
}

/// The drop-elimination step: scan for the point past which the donor is
/// dead and, if the search then finds a compatible allocation, plant the
/// reset-and-reuse there; otherwise return the subtree unchanged.
pub fn function_d(env: &mut Env, x: Symbol, c: &CtorInfo, stmt: Stmt) -> (r: Stmt)
    requires
        old(env).ident_ids.next + mint_allowance(stmt) + 1 <= u64::MAX,
        stmt_idents_below(stmt, old(env).home, old(env).ident_ids.next),
        sym_below(x, old(env).home, old(env).ident_ids.next),
        !binds(stmt, x),
        stmt_supported(stmt),
        jumps_bound(stmt, ctx_ids(old(env).jp_live_vars@)),
    ensures
        final(env).home == old(env).home,
        final(env).jp_live_vars@ == old(env).jp_live_vars@,
        old(env).ident_ids.next <= final(env).ident_ids.next <= old(env).ident_ids.next
            + mint_allowance(stmt) + 1,
        mint_allowance(r) + old(env).ident_ids.next <= mint_allowance(stmt)
            + final(env).ident_ids.next,
        stmt_idents_below(r, old(env).home, final(env).ident_ids.next),
        forall|y: Symbol| #[trigger] binds(r, y) ==> binds(stmt, y) || (y.module == old(
            env,
        ).home && old(env).ident_ids.next <= y.ident < final(env).ident_ids.next),
        d_done_rel(old(env).jp_live_vars@, x, *c, stmt, r),
        stmt_supported(r),
        jumps_bound(r, ctx_ids(old(env).jp_live_vars@)),
{
    let ghost m0 = env.jp_live_vars@;
    let temp = function_d_main(env, x, c, stmt);
    let r = function_d_finalize(env, x, c, temp);
    proof {
        reveal(d_done_rel);
        if !d_found(m0, x, stmt) {
            assert(exists|mid: Stmt| #[trigger] d_rel(m0, x, *c, stmt, mid) && try_rel(
                x,
                *c,
                mid,
                r,
            ));
        }
        assert(d_done_rel(m0, x, *c, stmt, r));
    }
    r
}


/// An upper bound on how many fresh symbols the driver can mint over the
/// statement: for every switch on a union scrutinee, each branch and the
/// default are first transformed recursively and then scanned by drop
/// elimination, whose own allowance covers the transformed branch (its
/// size has grown by at most the driver's mints there).
pub open spec fn r_mint_allowance(s: Stmt) -> nat
    decreases s,
{
    match s {
        Stmt::Let(_, _, _, cont) => r_mint_allowance(*cont),
        Stmt::Switch { branches, default_branch, .. } => branches_r_mint_allowance(*branches) + 2
            * r_mint_allowance(*default_branch) + mint_allowance(*default_branch) + 1,
        Stmt::Ret(_) => 0,
        Stmt::Refcounting(_, cont) => r_mint_allowance(*cont),
        Stmt::Join { body, remainder, .. } => r_mint_allowance(*body) + r_mint_allowance(
            *remainder,
        ),
        Stmt::Jump(_, _) => 0,
        Stmt::Invoke { pass, fail, .. } => r_mint_allowance(*pass) + r_mint_allowance(*fail),
        Stmt::Resume(_) => 0,
        Stmt::RuntimeError(_) => 0,
    }
}

/// `r_mint_allowance`, over a branch list.
pub open spec fn branches_r_mint_allowance(b: Branches) -> nat
    decreases b,
{
    match b {
        Branches::Nil => 0,
        Branches::Cons { body, rest, .. } => 2 * r_mint_allowance(body) + mint_allowance(body) + 1
            + branches_r_mint_allowance(*rest),
    }
}

/// How the driver's output relates to its input: every switch on a
/// union-typed scrutinee has its branches recursively transformed and then
/// offered the scrutinee, with tag id 0, as a reuse donor through the
/// drop-elimination step; a switch on any other layout is only transformed
/// recursively; joins keep the usual liveness-registration discipline; all
/// other nodes pass through.
pub open spec fn r_rel(m: LiveCtx, s: Stmt, t: Stmt) -> bool
    decreases s,
{
    match s {
        Stmt::Let(sym, e, l, cont) => {
            t matches Stmt::Let(s2, e2, l2, c2) && s2 == sym && e2 == e && l2 == l && r_rel(
                m,
                *cont,
                *c2,
            )
        },
        Stmt::Switch { cond_symbol, cond_layout, branches, default_branch, ret_layout } => {
            t matches Stmt::Switch {
                cond_symbol: cs2,
                cond_layout: cl2,
                branches: b2,
                default_branch: d2,
                ret_layout: rl2,
            } && cs2 == cond_symbol && cl2 == cond_layout && rl2 == ret_layout && (
            match cond_layout {
                Layout::Union(ul) => {
                    let ci = CtorInfo { id: 0, layout: ul };
                    branches_r_donor_rel(m, cond_symbol, ci, *branches, *b2) && (exists|mid: Stmt|
                        #![trigger r_rel(m, *default_branch, mid)]
                        #![trigger d_done_rel(m, cond_symbol, ci, mid, *d2)]
                        r_rel(m, *default_branch, mid) && d_done_rel(m, cond_symbol, ci, mid, *d2))
                },
                _ => branches_r_rel(m, *branches, *b2) && r_rel(m, *default_branch, *d2),
            })
        },
        Stmt::Ret(_) => t == s,
        Stmt::Refcounting(op, cont) => {
            t matches Stmt::Refcounting(op2, c2) && op2 == op && r_rel(m, *cont, *c2)
        },
        Stmt::Join { id, parameters, body, remainder } => {
            let bv = live_vars(m.push((id, Set::empty())), *body);
            t matches Stmt::Join { id: id2, parameters: p2, body: b2, remainder: r2 } && id2 == id
                && p2 == parameters && r_rel(m.push((id, bv)), *body, *b2) && r_rel(
                m.push((id, bv)),
                *remainder,
                *r2,
            )
        },
        Stmt::Jump(_, _) => t == s,
        Stmt::Invoke { .. } => t == s,
        Stmt::Resume(_) => t == s,
        Stmt::RuntimeError(_) => t == s,
    }
}

/// `r_rel` over a branch list whose switch scrutinee is not union-typed:
/// recursive transformation only.
pub open spec fn branches_r_rel(m: LiveCtx, b: Branches, t: Branches) -> bool
    decreases b,
{
    match b {
        Branches::Nil => t matches Branches::Nil,
        Branches::Cons { tag, body, rest } => {
            t matches Branches::Cons { tag: t2, body: bd2, rest: r2 } && t2 == tag && r_rel(
                m,
                body,
                bd2,
            ) && branches_r_rel(m, *rest, *r2)
        },
    }
}

/// `r_rel` over a branch list whose switch scrutinee is a union-typed reuse
/// donor: each branch is recursively transformed, then drop elimination
/// runs on it with the scrutinee as donor.
pub open spec fn branches_r_donor_rel(m: LiveCtx, x: Symbol, c: CtorInfo, b: Branches, t: Branches) -> bool
    decreases b,
{
    match b {
        Branches::Nil => t matches Branches::Nil,
        Branches::Cons { tag, body, rest } => {
            t matches Branches::Cons { tag: t2, body: bd2, rest: r2 } && t2 == tag && (exists|
                mid: Stmt,
            |
                #![trigger r_rel(m, body, mid)]
                #![trigger d_done_rel(m, x, c, mid, bd2)]
                r_rel(m, body, mid) && d_done_rel(m, x, c, mid, bd2))
                && branches_r_donor_rel(m, x, c, *rest, *r2)
        },
    }
}

/// The recursive driver: walk the whole body; at every switch on a
/// union-typed scrutinee, transform each branch and then offer the
/// scrutinee as a reuse donor to it.
pub fn function_r(env: &mut Env, stmt: Stmt) -> (r: Stmt)
    requires
        old(env).ident_ids.next + r_mint_allowance(stmt) <= u64::MAX,
        stmt_idents_below(stmt, old(env).home, old(env).ident_ids.next),
        scrutinees_unbound(stmt),
        stmt_supported(stmt),
        jumps_bound(stmt, ctx_ids(old(env).jp_live_vars@)),
    ensures
        final(env).home == old(env).home,
        final(env).jp_live_vars@ == old(env).jp_live_vars@,
        old(env).ident_ids.next <= final(env).ident_ids.next <= old(env).ident_ids.next
            + r_mint_allowance(stmt),
        mint_allowance(r) + old(env).ident_ids.next <= mint_allowance(stmt)
            + final(env).ident_ids.next,
        stmt_idents_below(r, old(env).home, final(env).ident_ids.next),
        forall|y: Symbol| #[trigger] binds(r, y) ==> binds(stmt, y) || (y.module == old(
            env,
        ).home && old(env).ident_ids.next <= y.ident < final(env).ident_ids.next),
        r_rel(old(env).jp_live_vars@, stmt, r),
        stmt_supported(r),
        jumps_bound(r, ctx_ids(old(env).jp_live_vars@)),
    decreases stmt,
{
    let ghost m0 = env.jp_live_vars@;
    let ghost h = env.home;
    let ghost n0 = env.ident_ids.next;
    let res = match stmt {
        Stmt::Let(sym, e, l, cont) => {
            let b = function_r(env, *cont);
            let out = Stmt::Let(sym, e, l, Box::new(b));
            proof {
                assert forall|y: Symbol| #[trigger] binds(out, y) implies binds(stmt, y) || (
                y.module == h && n0 <= y.ident < env.ident_ids.next) by {
                    if y != sym {
                        assert(binds(b, y));
                    }
                }
                assert forall|y: Symbol| #[trigger] expr_uses(e, y) implies sym_below(
                    y,
                    h,
                    env.ident_ids.next,
                ) by {}
            }
            out
        },
        Stmt::Switch { cond_symbol, cond_layout, branches, default_branch, ret_layout } => {
            let b2 = function_r_branches(env, cond_symbol, cond_layout, *branches);
            let ghost n_b = env.ident_ids.next;
            proof {
                lemma_idents_below_le(*default_branch, h, n0, n_b);
            }
            let temp = function_r(env, *default_branch);
            let ghost n_t = env.ident_ids.next;
            let d2 = match cond_layout {
                Layout::Union(ul) => {
                    let ci = CtorInfo { id: 0, layout: ul };
                    proof {
                        assert(!binds(temp, cond_symbol)) by {
                            if binds(temp, cond_symbol) {
                                assert(binds(*default_branch, cond_symbol) || (
                                cond_symbol.module == h && n_b <= cond_symbol.ident));
                            }
                        }
                    }
                    let nd = function_d(env, cond_symbol, &ci, temp);
                    proof {
                        assert(r_rel(m0, *default_branch, temp));
                        assert(d_done_rel(m0, cond_symbol, ci, temp, nd));
                    }
                    nd
                },
                _ => temp,
            };
            let out = Stmt::Switch {
                cond_symbol,
                cond_layout,
                branches: Box::new(b2),
                default_branch: Box::new(d2),
                ret_layout,
            };
            proof {
                lemma_branches_idents_below_le(b2, h, n_b, env.ident_ids.next);
                lemma_idents_below_le(d2, h, env.ident_ids.next, env.ident_ids.next);
                assert forall|y: Symbol| #[trigger] binds(out, y) implies binds(stmt, y) || (
                y.module == h && n0 <= y.ident < env.ident_ids.next) by {
                    if crate::ir::branches_bind(b2, y) {
                    } else {
                        assert(binds(d2, y));
                        if binds(temp, y) {
                            assert(binds(*default_branch, y) || (y.module == h && n_b
                                <= y.ident));
                        }
                    }
                }
            }
            out
        },
        Stmt::Ret(y) => Stmt::Ret(y),
        Stmt::Refcounting(op, cont) => {
            let b = function_r(env, *cont);
            let out = Stmt::Refcounting(op, Box::new(b));
            proof {
                assert forall|y: Symbol| #[trigger] binds(out, y) implies binds(stmt, y) || (
                y.module == h && n0 <= y.ident < env.ident_ids.next) by {
                    assert(binds(b, y));
                }
            }
            out
        },
        Stmt::Join { id, parameters, body, remainder } => {
            proof {
                lemma_ctx_ids_push(m0, id, Set::empty());
            }
            env.jp_live_vars.push_scope(id, VarSet::new());
            let bv = collect_stmt(&mut env.jp_live_vars, &body, VarSet::new());
            env.jp_live_vars.pop_scope();
            proof {
                assert(env.jp_live_vars@ =~= m0);
                assert(bv@ =~= live_vars(m0.push((id, Set::empty())), *body));
                lemma_ctx_ids_push(m0, id, bv@);
            }
            env.jp_live_vars.push_scope(id, bv);
            let b = function_r(env, *remainder);
            let ghost n_rem = env.ident_ids.next;
            proof {
                lemma_idents_below_le(*body, h, n0, n_rem);
            }
            let v = function_r(env, *body);
            env.jp_live_vars.pop_scope();
            let out = Stmt::Join { id, parameters, body: Box::new(v), remainder: Box::new(b) };
            proof {
                assert(env.jp_live_vars@ =~= m0);
                lemma_idents_below_le(b, h, n_rem, env.ident_ids.next);
                assert forall|y: Symbol| #[trigger] binds(out, y) implies binds(stmt, y) || (
                y.module == h && n0 <= y.ident < env.ident_ids.next) by {
                    if binds(v, y) {
                        assert(binds(v, y));
                    } else if binds(b, y) {
                        assert(binds(b, y));
                    }
                }
            }
            out
        },
        Stmt::Jump(id, args) => Stmt::Jump(id, args),
        Stmt::Invoke { .. } => {
            proof {
                assert(false);
            }
            stmt
        },
        Stmt::Resume(y) => Stmt::Resume(y),
        Stmt::RuntimeError(y) => Stmt::RuntimeError(y),
    };
    proof {
        reveal_with_fuel(r_rel, 2);
        assert(r_rel(m0, stmt, res));
    }
    res
}

/// The driver over a branch list: transform each branch, and when the
/// switch scrutinee is union-typed, offer it as donor to the transformed
/// branch.
pub fn function_r_branches(env: &mut Env, cond_symbol: Symbol, cond_layout: Layout, b: Branches) -> (r: Branches)
    requires
        old(env).ident_ids.next + branches_r_mint_allowance(b) <= u64::MAX,
        branches_idents_below(b, old(env).home, old(env).ident_ids.next),
        sym_below(cond_symbol, old(env).home, old(env).ident_ids.next),
        !branches_bind(b, cond_symbol),
        branches_scrutinees_unbound(b),
        crate::ir::branches_supported(b),
        crate::ir::branches_jumps_bound(b, ctx_ids(old(env).jp_live_vars@)),
    ensures
        final(env).home == old(env).home,
        final(env).jp_live_vars@ == old(env).jp_live_vars@,
        old(env).ident_ids.next <= final(env).ident_ids.next <= old(env).ident_ids.next
            + branches_r_mint_allowance(b),
        branches_mint_allowance(r) + old(env).ident_ids.next <= branches_mint_allowance(b)
            + final(env).ident_ids.next,
        branches_idents_below(r, old(env).home, final(env).ident_ids.next),
        forall|y: Symbol| #[trigger] branches_bind(r, y) ==> branches_bind(b, y) || (y.module
            == old(env).home && old(env).ident_ids.next <= y.ident < final(env).ident_ids.next),
        (match cond_layout {
            Layout::Union(ul) => branches_r_donor_rel(
                old(env).jp_live_vars@,
                cond_symbol,
                CtorInfo { id: 0, layout: ul },
                b,
                r,
            ),
            _ => branches_r_rel(old(env).jp_live_vars@, b, r),
        }),
        crate::ir::branches_supported(r),
        crate::ir::branches_jumps_bound(r, ctx_ids(old(env).jp_live_vars@)),
    decreases b,
{
    let ghost m0 = env.jp_live_vars@;
    let ghost h = env.home;
    let ghost n0 = env.ident_ids.next;
    let res = match b {
        Branches::Nil => Branches::Nil,
        Branches::Cons { tag, body, rest } => {
            let temp = function_r(env, body);
            let ghost n_t = env.ident_ids.next;
            let nb = match cond_layout {
                Layout::Union(ul) => {
                    let ci = CtorInfo { id: 0, layout: ul };
                    proof {
                        assert(!binds(temp, cond_symbol)) by {
                            if binds(temp, cond_symbol) {
                                assert(binds(body, cond_symbol) || (cond_symbol.module == h && n0
                                    <= cond_symbol.ident));
                            }
                        }
                    }
                    let nd = function_d(env, cond_symbol, &ci, temp);
                    proof {
                        assert(r_rel(m0, body, temp));
                        assert(d_done_rel(m0, cond_symbol, ci, temp, nd));
                    }
                    nd
                },
                _ => temp,
            };
            let ghost n_nb = env.ident_ids.next;
            proof {
                lemma_branches_idents_below_le(*rest, h, n0, n_nb);
            }
            let r2 = function_r_branches(env, cond_symbol, cond_layout, *rest);
            let out = Branches::Cons { tag, body: nb, rest: Box::new(r2) };
            proof {
                reveal_with_fuel(branches_r_donor_rel, 2);
                reveal_with_fuel(branches_r_rel, 2);
                assert(out matches Branches::Cons { tag: t2, body: bd2, rest: rr2 } && t2 == tag
                    && bd2 == nb && *rr2 == r2);
                lemma_idents_below_le(nb, h, n_nb, env.ident_ids.next);
                assert forall|y: Symbol| #[trigger] branches_bind(out, y) implies branches_bind(
                    b,
                    y,
                ) || (y.module == h && n0 <= y.ident < env.ident_ids.next) by {
                    if binds(nb, y) {
                        if binds(temp, y) {
                            assert(binds(body, y) || (y.module == h && n0 <= y.ident));
                        }
                    } else {
                        assert(crate::ir::branches_bind(r2, y));
                    }
                }
                match cond_layout {
                    Layout::Union(ul) => {
                        let ci = CtorInfo { id: 0, layout: ul };
                        assert(branches_r_donor_rel(m0, cond_symbol, ci, b, out));
                    },
                    _ => {
                        assert(branches_r_rel(m0, b, out));
                    },
                }
            }
            out
        },
    };
    res
}

/// Transform one procedure: walk its body with a fresh environment and
/// return it with the same signature and a body in which zero or more `Tag`
/// constructions have become `Reuse` constructions and zero or more
/// redundant decrements have become `Reset` operations feeding them.  The
/// input must not already contain `Reset` or `Reuse`, must not use the
/// unsupported `Invoke`/`Call` forms, and every jump must target a join of
/// the body itself.
pub fn insert_reset_reuse(home: u32, ident_ids: &mut IdentIds, proc: Proc) -> (r: Proc)
    requires
        old(ident_ids).next + r_mint_allowance(proc.body) <= u64::MAX,
        stmt_idents_below(proc.body, home, old(ident_ids).next),
        scrutinees_unbound(proc.body),
        stmt_supported(proc.body),
        stmt_reuse_free(proc.body),
        jumps_bound(proc.body, Set::empty()),
    ensures
        r.args == proc.args,
        r.ret_layout == proc.ret_layout,
        r_rel(Seq::<(crate::ir::JoinPointId, Set<Symbol>)>::empty(), proc.body, r.body),
        final(ident_ids).next >= old(ident_ids).next,
{
    let mut env = Env {
        home,
        ident_ids: IdentIds { next: ident_ids.next },
        jp_live_vars: JoinLiveness::new(),
    };
    proof {
        assert(ctx_ids(env.jp_live_vars@) =~= Set::<crate::ir::JoinPointId>::empty());
    }
    let new_body = function_r(&mut env, proc.body);
    ident_ids.next = env.ident_ids.next;
    Proc { args: proc.args, body: new_body, ret_layout: proc.ret_layout }
}


/// No speculative reset: when the search step finds no compatible
/// allocation reachable from a candidate decrement site, the
/// reset-and-reuse attempt returns the subtree unchanged — the plain
/// decrement stays, and no orphan `Reset` without a consuming `Reuse` is
/// ever introduced.
pub proof fn lemma_no_speculative_reset(x: Symbol, c: CtorInfo, s: Stmt, t: Stmt)
    requires
        try_rel(x, c, s, t),
        !search_found(c, s),
    ensures
        t == s,
{
}

/// `search_found` is exactly "some `Tag` the donor can host occurs in the
/// subtree": together with the search step's contract, a subtree with no
/// eligible `Tag` node comes back from the search unchanged.
pub proof fn lemma_search_noop(w: Symbol, c: CtorInfo, s: Stmt, t: Stmt)
    requires
        search_rel(w, c, s, t),
        !search_found(c, s),
    ensures
        t == s,
    decreases s,
{
    match s {
        Stmt::Let(_, _, _, cont) => {
            match t {
                Stmt::Let(_, _, _, c2) => {
                    lemma_search_noop(w, c, *cont, *c2);
                },
                _ => {},
            }
        },
        Stmt::Switch { branches, default_branch, .. } => {
            match t {
                Stmt::Switch { branches: b2, default_branch: d2, .. } => {
                    lemma_branches_search_noop(w, c, *branches, *b2);
                    lemma_search_noop(w, c, *default_branch, *d2);
                },
                _ => {},
            }
        },
        Stmt::Refcounting(_, cont) => {
            match t {
                Stmt::Refcounting(_, c2) => {
                    lemma_search_noop(w, c, *cont, *c2);
                },
                _ => {},
            }
        },
        Stmt::Join { body, remainder, .. } => {
            match t {
                Stmt::Join { body: b2, remainder: r2, .. } => {
                    lemma_search_noop(w, c, *remainder, *r2);
                },
                _ => {},
            }
        },
        Stmt::Invoke { pass, fail, .. } => {
            match t {
                Stmt::Invoke { pass: p2, fail: f2, .. } => {
                    lemma_search_noop(w, c, *pass, *p2);
                    lemma_search_noop(w, c, *fail, *f2);
                },
                _ => {},
            }
        },
        _ => {},
    }
}

/// `lemma_search_noop`, over a branch list.
pub proof fn lemma_branches_search_noop(w: Symbol, c: CtorInfo, b: Branches, t: Branches)
    requires
        branches_search_rel(w, c, b, t),
        !branches_search_found(c, b),
    ensures
        t == b,
    decreases b,
{
    match b {
        Branches::Nil => {},
        Branches::Cons { body, rest, .. } => {
            match t {
                Branches::Cons { body: bd2, rest: r2, .. } => {
                    lemma_search_noop(w, c, body, bd2);
                    lemma_branches_search_noop(w, c, *rest, *r2);
                },
                _ => {},
            }
        },
    }
}

/// The largest number of `Reuse` constructions consuming the cell `w` that
/// one control path through the statement can execute.  Sequential
/// composition adds, branching takes the worst branch, and a join counts
/// its remainder together with its body, since a path may jump into the
/// body.
pub open spec fn path_reuses(w: Symbol, s: Stmt) -> nat
    decreases s,
{
    match s {
        Stmt::Let(_, e, _, cont) => (if e matches Expr::Reuse { symbol, .. } && symbol == w {
            1nat
        } else {
            0nat
        }) + path_reuses(w, *cont),
        Stmt::Switch { branches, default_branch, .. } => {
            let bm = branches_path_reuses(w, *branches);
            let dm = path_reuses(w, *default_branch);
            if bm >= dm {
                bm
            } else {
                dm
            }
        },
        Stmt::Ret(_) => 0,
        Stmt::Refcounting(_, cont) => path_reuses(w, *cont),
        Stmt::Join { body, remainder, .. } => path_reuses(w, *body) + path_reuses(w, *remainder),
        Stmt::Jump(_, _) => 0,
        Stmt::Invoke { pass, fail, .. } => {
            let pm = path_reuses(w, *pass);
            let fm = path_reuses(w, *fail);
            if pm >= fm {
                pm
            } else {
                fm
            }
        },
        Stmt::Resume(_) => 0,
        Stmt::RuntimeError(_) => 0,
    }
}

/// `path_reuses`, over a branch list: the worst branch.
pub open spec fn branches_path_reuses(w: Symbol, b: Branches) -> nat
    decreases b,
{
    match b {
        Branches::Nil => 0,
        Branches::Cons { body, rest, .. } => {
            let bm = path_reuses(w, body);
            let rm = branches_path_reuses(w, *rest);
            if bm >= rm {
                bm
            } else {
                rm
            }
        },
    }
}

/// No `Reuse` consuming the cell `w` occurs anywhere in the statement.
pub open spec fn no_reuse_of(w: Symbol, s: Stmt) -> bool
    decreases s,
{
    match s {
        Stmt::Let(_, e, _, cont) => !(e matches Expr::Reuse { symbol, .. } && symbol == w)
            && no_reuse_of(w, *cont),
        Stmt::Switch { branches, default_branch, .. } => branches_no_reuse_of(w, *branches)
            && no_reuse_of(w, *default_branch),
        Stmt::Ret(_) => true,
        Stmt::Refcounting(_, cont) => no_reuse_of(w, *cont),
        Stmt::Join { body, remainder, .. } => no_reuse_of(w, *body) && no_reuse_of(w, *remainder),
        Stmt::Jump(_, _) => true,
        Stmt::Invoke { pass, fail, .. } => no_reuse_of(w, *pass) && no_reuse_of(w, *fail),
        Stmt::Resume(_) => true,
        Stmt::RuntimeError(_) => true,
    }
}

/// `no_reuse_of`, over a branch list.
pub open spec fn branches_no_reuse_of(w: Symbol, b: Branches) -> bool
    decreases b,
{
    match b {
        Branches::Nil => true,
        Branches::Cons { body, rest, .. } => no_reuse_of(w, body) && branches_no_reuse_of(
            w,
            *rest,
        ),
    }
}

/// A statement without any `Reuse` of `w` has no path executing one.
pub proof fn lemma_no_reuse_zero(w: Symbol, s: Stmt)
    requires
        no_reuse_of(w, s),
    ensures
        path_reuses(w, s) == 0,
    decreases s,
{
    match s {
        Stmt::Let(_, _, _, cont) => {
            lemma_no_reuse_zero(w, *cont);
        },
        Stmt::Switch { branches, default_branch, .. } => {
            lemma_branches_no_reuse_zero(w, *branches);
            lemma_no_reuse_zero(w, *default_branch);
        },
        Stmt::Refcounting(_, cont) => {
            lemma_no_reuse_zero(w, *cont);
        },
        Stmt::Join { body, remainder, .. } => {
            lemma_no_reuse_zero(w, *body);
            lemma_no_reuse_zero(w, *remainder);
        },
        Stmt::Invoke { pass, fail, .. } => {
            lemma_no_reuse_zero(w, *pass);
            lemma_no_reuse_zero(w, *fail);
        },
        _ => {},
    }
}

/// `lemma_no_reuse_zero`, over a branch list.
pub proof fn lemma_branches_no_reuse_zero(w: Symbol, b: Branches)
    requires
        branches_no_reuse_of(w, b),
    ensures
        branches_path_reuses(w, b) == 0,
    decreases b,
{
    match b {
        Branches::Nil => {},
        Branches::Cons { body, rest, .. } => {
            lemma_no_reuse_zero(w, body);
            lemma_branches_no_reuse_zero(w, *rest);
        },
    }
}

/// At most one reuse per donor per path: starting from a subtree in which
/// the fresh donor cell `w` is not yet consumed anywhere, the search step
/// leaves every single control path with at most one `Reuse` of `w` — and
/// with none at all when it reports no match.  A donor dies once per path,
/// so its cell can feed only one allocation there.
pub proof fn lemma_at_most_one_reuse_per_path(w: Symbol, c: CtorInfo, s: Stmt, t: Stmt)
    requires
        no_reuse_of(w, s),
        search_rel(w, c, s, t),
    ensures
        path_reuses(w, t) <= 1,
        !search_found(c, s) ==> path_reuses(w, t) == 0,
    decreases s,
{
    match s {
        Stmt::Let(sym, e, l, cont) => {
            match t {
                Stmt::Let(_, e2, _, c2) => {
                    if reusable_tag(e, c) {
                        lemma_no_reuse_zero(w, *cont);
                    } else {
                        lemma_at_most_one_reuse_per_path(w, c, *cont, *c2);
                    }
                },
                _ => {},
            }
        },
        Stmt::Switch { branches, default_branch, .. } => {
            match t {
                Stmt::Switch { branches: b2, default_branch: d2, .. } => {
                    lemma_branches_at_most_one_reuse(w, c, *branches, *b2);
                    lemma_at_most_one_reuse_per_path(w, c, *default_branch, *d2);
                },
                _ => {},
            }
        },
        Stmt::Refcounting(_, cont) => {
            match t {
                Stmt::Refcounting(_, c2) => {
                    lemma_at_most_one_reuse_per_path(w, c, *cont, *c2);
                },
                _ => {},
            }
        },
        Stmt::Join { body, remainder, .. } => {
            match t {
                Stmt::Join { body: b2, remainder: r2, .. } => {
                    if search_found(c, *body) {
                        lemma_at_most_one_reuse_per_path(w, c, *body, *b2);
                        lemma_no_reuse_zero(w, *remainder);
                    } else {
                        lemma_no_reuse_zero(w, *body);
                        lemma_at_most_one_reuse_per_path(w, c, *remainder, *r2);
                    }
                },
                _ => {},
            }
        },
        Stmt::Invoke { pass, fail, .. } => {
            match t {
                Stmt::Invoke { pass: p2, fail: f2, .. } => {
                    lemma_at_most_one_reuse_per_path(w, c, *pass, *p2);
                    lemma_at_most_one_reuse_per_path(w, c, *fail, *f2);
                },
                _ => {},
            }
        },
        _ => {},
    }
}

/// `lemma_at_most_one_reuse_per_path`, over a branch list: every branch is
/// its own path, so each may consume the donor once.
pub proof fn lemma_branches_at_most_one_reuse(w: Symbol, c: CtorInfo, b: Branches, t: Branches)
    requires
        branches_no_reuse_of(w, b),
        branches_search_rel(w, c, b, t),
    ensures
        branches_path_reuses(w, t) <= 1,
        !branches_search_found(c, b) ==> branches_path_reuses(w, t) == 0,
    decreases b,
{
    match b {
        Branches::Nil => {},
        Branches::Cons { body, rest, .. } => {
            match t {
                Branches::Cons { body: bd2, rest: r2, .. } => {
                    lemma_at_most_one_reuse_per_path(w, c, body, bd2);
                    lemma_branches_at_most_one_reuse(w, c, *rest, *r2);
                },
                _ => {},
            }
        },
    }
}


/// The search step never revives the donor: a symbol other than the fresh
/// cell `w` that is dead in the input subtree is still dead in the output.
/// The rewrite only replaces a `Tag` by a `Reuse` of `w` over the same
/// arguments.
pub proof fn lemma_search_keeps_dead(
    w: Symbol,
    c: CtorInfo,
    m: LiveCtx,
    s: Stmt,
    t: Stmt,
    x: Symbol,
)
    requires
        search_rel(w, c, s, t),
        x != w,
        !live_vars(m, s).contains(x),
    ensures
        !live_vars(m, t).contains(x),
    decreases s,
{
    match s {
        Stmt::Let(_, e, _, cont) => {
            match t {
                Stmt::Let(_, _, _, c2) => {
                    if !reusable_tag(e, c) {
                        lemma_search_keeps_dead(w, c, m, *cont, *c2, x);
                    }
                },
                _ => {},
            }
        },
        Stmt::Switch { branches, default_branch, .. } => {
            match t {
                Stmt::Switch { branches: b2, default_branch: d2, .. } => {
                    lemma_branches_search_keeps_dead(w, c, m, *branches, *b2, x);
                    lemma_search_keeps_dead(w, c, m, *default_branch, *d2, x);
                },
                _ => {},
            }
        },
        Stmt::Refcounting(_, cont) => {
            match t {
                Stmt::Refcounting(_, c2) => {
                    lemma_search_keeps_dead(w, c, m, *cont, *c2, x);
                },
                _ => {},
            }
        },
        Stmt::Join { id, body, remainder, .. } => {
            match t {
                Stmt::Join { body: b2, remainder: r2, .. } => {
                    let bv_s = live_vars(m.push((id, Set::empty())), *body);
                    let bv_t = live_vars(m.push((id, Set::empty())), *b2);
                    if search_found(c, *body) {
                        lemma_search_keeps_dead(
                            w,
                            c,
                            m.push((id, Set::empty())),
                            *body,
                            *b2,
                            x,
                        );
                        if live_vars(m.push((id, bv_t)), *r2).contains(x) {
                            crate::liveness::lemma_ctx_le_on_push(m, id, bv_t, bv_s, x);
                            crate::liveness::lemma_live_vars_le_on(
                                m.push((id, bv_t)),
                                m.push((id, bv_s)),
                                *r2,
                                x,
                            );
                        }
                    } else {
                        lemma_search_keeps_dead(
                            w,
                            c,
                            m.push((id, bv_s)),
                            *remainder,
                            *r2,
                            x,
                        );
                    }
                },
                _ => {},
            }
        },
        Stmt::Invoke { pass, fail, .. } => {
            match t {
                Stmt::Invoke { pass: p2, fail: f2, .. } => {
                    lemma_search_keeps_dead(w, c, m, *pass, *p2, x);
                    lemma_search_keeps_dead(w, c, m, *fail, *f2, x);
                },
                _ => {},
            }
        },
        _ => {},
    }
}

/// `lemma_search_keeps_dead`, over a branch list.
pub proof fn lemma_branches_search_keeps_dead(
    w: Symbol,
    c: CtorInfo,
    m: LiveCtx,
    b: Branches,
    t: Branches,
    x: Symbol,
)
    requires
        branches_search_rel(w, c, b, t),
        x != w,
        !crate::liveness::branches_live_vars(m, b).contains(x),
    ensures
        !crate::liveness::branches_live_vars(m, t).contains(x),
    decreases b,
{
    match b {
        Branches::Nil => {},
        Branches::Cons { body, rest, .. } => {
            match t {
                Branches::Cons { body: bd2, rest: r2, .. } => {
                    lemma_search_keeps_dead(w, c, m, body, bd2, x);
                    lemma_branches_search_keeps_dead(w, c, m, *rest, *r2, x);
                },
                _ => {},
            }
        },
    }
}

/// The strip step never revives a symbol: it only removes a decrement.
pub proof fn lemma_strip_keeps_dead(xd: Symbol, m: LiveCtx, s: Stmt, t: Stmt, x: Symbol)
    requires
        strip_rel(xd, s, t),
        !live_vars(m, s).contains(x),
    ensures
        !live_vars(m, t).contains(x),
    decreases s,
{
    match s {
        Stmt::Let(_, _, _, cont) => {
            match t {
                Stmt::Let(_, _, _, c2) => {
                    lemma_strip_keeps_dead(xd, m, *cont, *c2, x);
                },
                _ => {},
            }
        },
        Stmt::Switch { branches, default_branch, .. } => {
            match t {
                Stmt::Switch { branches: b2, default_branch: d2, .. } => {
                    lemma_branches_strip_keeps_dead(xd, m, *branches, *b2, x);
                    lemma_strip_keeps_dead(xd, m, *default_branch, *d2, x);
                },
                _ => {},
            }
        },
        Stmt::Refcounting(op, cont) => {
            if op == ModifyRc::Dec(xd) {
            } else {
                match t {
                    Stmt::Refcounting(_, c2) => {
                        lemma_strip_keeps_dead(xd, m, *cont, *c2, x);
                    },
                    _ => {},
                }
            }
        },
        Stmt::Join { id, body, remainder, .. } => {
            match t {
                Stmt::Join { body: b2, remainder: r2, .. } => {
                    let bv_s = live_vars(m.push((id, Set::empty())), *body);
                    let bv_t = live_vars(m.push((id, Set::empty())), *b2);
                    lemma_strip_keeps_dead(xd, m.push((id, Set::empty())), *body, *b2, x);
                    lemma_strip_keeps_dead(xd, m.push((id, bv_s)), *remainder, *r2, x);
                    if live_vars(m.push((id, bv_t)), *r2).contains(x) {
                        crate::liveness::lemma_ctx_le_on_push(m, id, bv_t, bv_s, x);
                        crate::liveness::lemma_live_vars_le_on(
                            m.push((id, bv_t)),
                            m.push((id, bv_s)),
                            *r2,
                            x,
                        );
                    }
                },
                _ => {},
            }
        },
        _ => {},
    }
}

/// `lemma_strip_keeps_dead`, over a branch list.
pub proof fn lemma_branches_strip_keeps_dead(
    xd: Symbol,
    m: LiveCtx,
    b: Branches,
    t: Branches,
    x: Symbol,
)
    requires
        branches_strip_rel(xd, b, t),
        !crate::liveness::branches_live_vars(m, b).contains(x),
    ensures
        !crate::liveness::branches_live_vars(m, t).contains(x),
    decreases b,
{
    match b {
        Branches::Nil => {},
        Branches::Cons { body, rest, .. } => {
            match t {
                Branches::Cons { body: bd2, rest: r2, .. } => {
                    lemma_strip_keeps_dead(xd, m, body, bd2, x);
                    lemma_branches_strip_keeps_dead(xd, m, *rest, *r2, x);
                },
                _ => {},
            }
        },
    }
}

/// Soundness of a planted reset, the liveness half: where the
/// reset-and-reuse attempt turned a dead donor `x` into `Reset(x)` binding
/// a fresh symbol, the statement under the reset never reads `x` again —
/// the donor's cell is logically consumed by the reset, and the rewrite
/// introduced only reads of the fresh cell.
pub proof fn lemma_reset_donor_stays_dead(m: LiveCtx, x: Symbol, c: CtorInfo, s: Stmt, t: Stmt)
    requires
        try_rel(x, c, s, t),
        search_found(c, s),
        !live_vars(m, s).contains(x),
        t matches Stmt::Let(w2, _, _, _) && w2 != x,
    ensures
        t matches Stmt::Let(w2, _, _, inner) ==> !live_vars(m, *inner).contains(x),
{
    match t {
        Stmt::Let(w2, _, _, inner) => {
            let mid = choose|mid: Stmt|
                #[trigger] search_rel(w2, c, s, mid) && strip_rel(x, mid, *inner);
            lemma_search_keeps_dead(w2, c, m, s, mid, x);
            lemma_strip_keeps_dead(x, m, mid, *inner, x);
        },
        _ => {},
    }
}


/// The drop-elimination verdict respects context x-monotonicity, like the
/// liveness it is built on.
proof fn lemma_d_found_le_on(m1: LiveCtx, m2: LiveCtx, s: Stmt, x: Symbol)
    requires
        crate::liveness::ctx_le_on(m1, m2, x),
        d_found(m1, x, s),
    ensures
        d_found(m2, x, s),
    decreases s,
{
    match s {
        Stmt::Let(_, _, _, cont) => {
            if d_found(m1, x, *cont) {
                lemma_d_found_le_on(m1, m2, *cont, x);
            }
        },
        Stmt::Switch { .. } => {
            crate::liveness::lemma_live_vars_le_on(m1, m2, s, x);
        },
        Stmt::Ret(_) => {
            crate::liveness::lemma_live_vars_le_on(m1, m2, s, x);
        },
        Stmt::Refcounting(_, cont) => {
            if d_found(m1, x, *cont) {
                lemma_d_found_le_on(m1, m2, *cont, x);
            }
        },
        Stmt::Join { id, body, remainder, .. } => {
            let bv1 = live_vars(m1.push((id, Set::empty())), *body);
            let bv2 = live_vars(m2.push((id, Set::empty())), *body);
            assert(crate::liveness::ctx_le_on(
                m1.push((id, Set::empty())),
                m2.push((id, Set::empty())),
                x,
            )) by {
                assert forall|i: int|
                    #![trigger m1.push((id, Set::empty()))[i], m2.push((id, Set::empty()))[i]]
                    0 <= i < m1.len() + 1 implies m1.push((id, Set::empty()))[i].0 == m2.push(
                    (id, Set::empty()),
                )[i].0 && (m1.push((id, Set::empty()))[i].1.contains(x) ==> m2.push(
                    (id, Set::empty()),
                )[i].1.contains(x)) by {
                    if i < m1.len() {
                        assert(m1.push((id, Set::empty()))[i] == m1[i]);
                        assert(m2.push((id, Set::empty()))[i] == m2[i]);
                    }
                }
            }
            if bv1.contains(x) {
                crate::liveness::lemma_live_vars_le_on(
                    m1.push((id, Set::empty())),
                    m2.push((id, Set::empty())),
                    *body,
                    x,
                );
            }
            assert(crate::liveness::ctx_le_on(m1.push((id, bv1)), m2.push((id, bv2)), x)) by {
                assert forall|i: int|
                    #![trigger m1.push((id, bv1))[i], m2.push((id, bv2))[i]]
                    0 <= i < m1.len() + 1 implies m1.push((id, bv1))[i].0 == m2.push(
                    (id, bv2),
                )[i].0 && (m1.push((id, bv1))[i].1.contains(x) ==> m2.push(
                    (id, bv2),
                )[i].1.contains(x)) by {
                    if i < m1.len() {
                        assert(m1.push((id, bv1))[i] == m1[i]);
                        assert(m2.push((id, bv2))[i] == m2[i]);
                    }
                }
            }
            lemma_d_found_le_on(m1.push((id, bv1)), m2.push((id, bv2)), *remainder, x);
        },
        Stmt::Jump(_, _) => {
            crate::liveness::lemma_live_vars_le_on(m1, m2, s, x);
        },
        _ => {},
    }
}

/// The search step never makes the donor needed again: where the scan
/// reported the donor unread at or below the subtree, it is still unread
/// in the rewritten subtree.
proof fn lemma_search_keeps_unfound(
    w: Symbol,
    c: CtorInfo,
    m: LiveCtx,
    s: Stmt,
    t: Stmt,
    x: Symbol,
)
    requires
        search_rel(w, c, s, t),
        x != w,
        !d_found(m, x, s),
    ensures
        !d_found(m, x, t),
    decreases s,
{
    match s {
        Stmt::Let(_, e, _, cont) => {
            match t {
                Stmt::Let(_, _, _, c2) => {
                    if !reusable_tag(e, c) {
                        lemma_search_keeps_unfound(w, c, m, *cont, *c2, x);
                    }
                },
                _ => {},
            }
        },
        Stmt::Switch { .. } => {
            lemma_search_keeps_dead(w, c, m, s, t, x);
        },
        Stmt::Refcounting(_, cont) => {
            match t {
                Stmt::Refcounting(_, c2) => {
                    lemma_search_keeps_unfound(w, c, m, *cont, *c2, x);
                },
                _ => {},
            }
        },
        Stmt::Join { id, body, remainder, .. } => {
            match t {
                Stmt::Join { body: b2, remainder: r2, .. } => {
                    let bv_s = live_vars(m.push((id, Set::empty())), *body);
                    let bv_t = live_vars(m.push((id, Set::empty())), *b2);
                    if search_found(c, *body) {
                        if d_found(m.push((id, bv_t)), x, *r2) {
                            if !bv_s.contains(x) {
                                lemma_search_keeps_dead(
                                    w,
                                    c,
                                    m.push((id, Set::empty())),
                                    *body,
                                    *b2,
                                    x,
                                );
                            }
                            crate::liveness::lemma_ctx_le_on_push(m, id, bv_t, bv_s, x);
                            lemma_d_found_le_on(
                                m.push((id, bv_t)),
                                m.push((id, bv_s)),
                                *r2,
                                x,
                            );
                        }
                    } else {
                        lemma_search_keeps_unfound(
                            w,
                            c,
                            m.push((id, bv_s)),
                            *remainder,
                            *r2,
                            x,
                        );
                    }
                },
                _ => {},
            }
        },
        _ => {},
    }
}

/// The strip step never makes the donor needed again either.
proof fn lemma_strip_keeps_unfound(xd: Symbol, m: LiveCtx, s: Stmt, t: Stmt, x: Symbol)
    requires
        strip_rel(xd, s, t),
        !d_found(m, x, s),
    ensures
        !d_found(m, x, t),
    decreases s,
{
    match s {
        Stmt::Let(_, _, _, cont) => {
            match t {
                Stmt::Let(_, _, _, c2) => {
                    lemma_strip_keeps_unfound(xd, m, *cont, *c2, x);
                },
                _ => {},
            }
        },
        Stmt::Switch { .. } => {
            lemma_strip_keeps_dead(xd, m, s, t, x);
        },
        Stmt::Refcounting(op, cont) => {
            if op == ModifyRc::Dec(xd) {
            } else {
                match t {
                    Stmt::Refcounting(_, c2) => {
                        lemma_strip_keeps_unfound(xd, m, *cont, *c2, x);
                    },
                    _ => {},
                }
            }
        },
        Stmt::Join { id, body, remainder, .. } => {
            match t {
                Stmt::Join { body: b2, remainder: r2, .. } => {
                    let bv_s = live_vars(m.push((id, Set::empty())), *body);
                    let bv_t = live_vars(m.push((id, Set::empty())), *b2);
                    lemma_strip_keeps_unfound(xd, m.push((id, bv_s)), *remainder, *r2, x);
                    if d_found(m.push((id, bv_t)), x, *r2) {
                        if !bv_s.contains(x) {
                            lemma_strip_keeps_dead(
                                xd,
                                m.push((id, Set::empty())),
                                *body,
                                *b2,
                                x,
                            );
                        }
                        crate::liveness::lemma_ctx_le_on_push(m, id, bv_t, bv_s, x);
                        lemma_d_found_le_on(m.push((id, bv_t)), m.push((id, bv_s)), *r2, x);
                    }
                },
                _ => {},
            }
        },
        _ => {},
    }
}

/// Soundness of a planted reset at the points the pass actually chooses:
/// the reset-and-reuse attempt fires only where the scan found the donor
/// unread below, and the statement planted under the resulting `Reset`
/// still never reads the donor — the rewrite introduced only reads of the
/// fresh cell, and the decrement the reset absorbed is gone.
pub proof fn lemma_reset_donor_not_read(m: LiveCtx, x: Symbol, c: CtorInfo, s: Stmt, t: Stmt)
    requires
        try_rel(x, c, s, t),
        search_found(c, s),
        !d_found(m, x, s),
        t matches Stmt::Let(w2, _, _, _) && w2 != x,
    ensures
        t matches Stmt::Let(w2, _, _, inner) ==> !d_found(m, x, *inner),
{
    match t {
        Stmt::Let(w2, _, _, inner) => {
            let mid = choose|mid: Stmt|
                #[trigger] search_rel(w2, c, s, mid) && strip_rel(x, mid, *inner);
            lemma_search_keeps_unfound(w2, c, m, s, mid, x);
            lemma_strip_keeps_unfound(x, m, mid, *inner, x);
        },
        _ => {},
    }
}


/// The symbol a successful reset-and-reuse attempt binds is fresh: pinned
/// to the counter value at the attempt, it differs from the donor and is
/// bound nowhere in the searched subtree, since every symbol there lies
/// below the counter.  This discharges the distinctness hypotheses of the
/// donor-deadness lemmas from the attempt's own contract.
pub proof fn lemma_planted_symbol_fresh(
    x: Symbol,
    c: CtorInfo,
    s: Stmt,
    t: Stmt,
    home: u32,
    n: u64,
)
    requires
        search_found(c, s),
        t matches Stmt::Let(w2, _, _, _) && w2 == (Symbol { module: home, ident: n }),
        sym_below(x, home, n),
        stmt_idents_below(s, home, n),
    ensures
        t matches Stmt::Let(w2, _, _, _) ==> w2 != x && !binds(s, w2),
{
    match t {
        Stmt::Let(w2, _, _, _) => {
            crate::ir::lemma_below_not_bound(s, home, n, w2);
        },
        _ => {},
    }
}

} // verus!
