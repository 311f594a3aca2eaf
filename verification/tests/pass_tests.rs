use reset_reuse::ir::{Branches, Expr, Layout, ModifyRc, Proc, Stmt, Symbol, UnionLayout};
use reset_reuse::liveness::JoinLiveness;
use reset_reuse::liveness::{collect_stmt, has_live_var, VarSet};
use reset_reuse::reuse::{
    function_d, function_s, insert_reset_reuse, may_reuse, try_function_s, CtorInfo, Env, IdentIds,
};

fn sym(i: u64) -> Symbol {
    Symbol { module: 0, ident: i }
}

fn fresh_env(start: u64) -> Env {
    Env { home: 0, ident_ids: IdentIds { next: start }, jp_live_vars: JoinLiveness::new() }
}

fn tag(layout: UnionLayout, id: u8, name: u64, args: Vec<Symbol>) -> Expr {
    Expr::Tag { tag_layout: layout, tag_id: id, tag_name: name, arguments: args }
}

fn reuse(w: Symbol, layout: UnionLayout, id: u8, name: u64, args: Vec<Symbol>) -> Expr {
    Expr::Reuse {
        symbol: w,
        update_tag_id: true,
        tag_layout: layout,
        tag_id: id,
        tag_name: name,
        arguments: args,
    }
}

#[test]
fn may_reuse_rejects_differing_layouts() {
    let a = UnionLayout::Recursive(1);
    let b = UnionLayout::Recursive(2);
    let donor = CtorInfo { id: 0, layout: b };
    assert!(!may_reuse(a, 0, &donor));
    let c = UnionLayout::NonRecursive(1);
    let donor2 = CtorInfo { id: 0, layout: c };
    assert!(!may_reuse(a, 0, &donor2));
}

#[test]
fn may_reuse_accepts_equal_materialized_layouts() {
    let a = UnionLayout::Recursive(3);
    assert!(may_reuse(a, 2, &CtorInfo { id: 0, layout: a }));
    let b = UnionLayout::NonRecursive(4);
    assert!(may_reuse(b, 1, &CtorInfo { id: 5, layout: b }));
    let c = UnionLayout::NonNullableUnwrapped(9);
    assert!(may_reuse(c, 0, &CtorInfo { id: 0, layout: c }));
}

#[test]
fn may_reuse_rejects_nullable_wrapped_sentinel_donor() {
    let l = UnionLayout::NullableWrapped { nullable_id: 2, other_tags: 4 };
    assert!(!may_reuse(l, 1, &CtorInfo { id: 2, layout: l }));
    assert!(may_reuse(l, 1, &CtorInfo { id: 0, layout: l }));
    assert!(may_reuse(l, 1, &CtorInfo { id: 3, layout: l }));
}

#[test]
fn may_reuse_nullable_unwrapped_null_donor_never_offered() {
    // Tag id 0 maps to the null representation.
    let l = UnionLayout::NullableUnwrapped { nullable_id: false, other_fields: 7 };
    assert!(!may_reuse(l, 1, &CtorInfo { id: 0, layout: l }));
    assert!(may_reuse(l, 1, &CtorInfo { id: 1, layout: l }));
    // The mirrored layout, where tag id 1 is null.
    let m = UnionLayout::NullableUnwrapped { nullable_id: true, other_fields: 7 };
    assert!(may_reuse(m, 0, &CtorInfo { id: 0, layout: m }));
    assert!(!may_reuse(m, 0, &CtorInfo { id: 1, layout: m }));
}

#[test]
fn search_no_eligible_tag_is_noop() {
    let y = sym(1);
    let z = sym(2);
    let body = Stmt::Let(
        y,
        Expr::Literal(11),
        Layout::Builtin(0),
        Box::new(Stmt::Ret(z)),
    );
    let expected = Stmt::Let(
        y,
        Expr::Literal(11),
        Layout::Builtin(0),
        Box::new(Stmt::Ret(z)),
    );
    let l = UnionLayout::Recursive(1);
    let (out, found) = function_s(sym(50), &CtorInfo { id: 0, layout: l }, body);
    assert!(!found);
    assert_eq!(out, expected);
}

#[test]
fn search_rewrites_first_compatible_tag() {
    let y = sym(1);
    let a = sym(2);
    let b = sym(3);
    let w = sym(50);
    let l = UnionLayout::Recursive(1);
    let body = Stmt::Let(
        y,
        tag(l, 2, 9, vec![a, b]),
        Layout::Union(l),
        Box::new(Stmt::Ret(y)),
    );
    let (out, found) = function_s(w, &CtorInfo { id: 0, layout: l }, body);
    assert!(found);
    let expected = Stmt::Let(
        y,
        reuse(w, l, 2, 9, vec![a, b]),
        Layout::Union(l),
        Box::new(Stmt::Ret(y)),
    );
    assert_eq!(out, expected);
}

#[test]
fn direct_reuse_rewrites_decrement_into_reset() {
    // let y = Tag[layout=L, id=2, args=[a, b]]; dec x; ret y
    // becomes
    // let w = Reset(x); let y = Reuse[symbol=w, id=2, args=[a, b]]; ret y
    let x = sym(10);
    let y = sym(1);
    let a = sym(2);
    let b = sym(3);
    let l = UnionLayout::Recursive(1);
    let body = Stmt::Let(
        y,
        tag(l, 2, 9, vec![a, b]),
        Layout::Union(l),
        Box::new(Stmt::Refcounting(ModifyRc::Dec(x), Box::new(Stmt::Ret(y)))),
    );
    let mut env = fresh_env(100);
    let out = function_d(&mut env, x, &CtorInfo { id: 1, layout: l }, body);
    let w = sym(100);
    let expected = Stmt::Let(
        w,
        Expr::Reset(x),
        Layout::Union(l),
        Box::new(Stmt::Let(
            y,
            reuse(w, l, 2, 9, vec![a, b]),
            Layout::Union(l),
            Box::new(Stmt::Ret(y)),
        )),
    );
    assert_eq!(out, expected);
}

#[test]
fn self_referential_construction_keeps_plain_decrement() {
    // let y = Tag[layout=L, id=2, args=[x, b]]; dec x; ret y is unchanged:
    // x occurs inside y's own construction.
    let x = sym(10);
    let y = sym(1);
    let b = sym(3);
    let l = UnionLayout::Recursive(1);
    let build = |x: Symbol, y: Symbol, b: Symbol| {
        Stmt::Let(
            y,
            tag(l, 2, 9, vec![x, b]),
            Layout::Union(l),
            Box::new(Stmt::Refcounting(ModifyRc::Dec(x), Box::new(Stmt::Ret(y)))),
        )
    };
    let mut env = fresh_env(100);
    let out = function_d(&mut env, x, &CtorInfo { id: 1, layout: l }, build(x, y, b));
    assert_eq!(out, build(x, y, b));
}

#[test]
fn no_allocation_leaves_plain_decrement() {
    // dec x; ret y, with no compatible allocation anywhere: no reset.
    let x = sym(10);
    let y = sym(1);
    let l = UnionLayout::Recursive(1);
    let body = Stmt::Refcounting(ModifyRc::Dec(x), Box::new(Stmt::Ret(y)));
    let mut env = fresh_env(100);
    let out = function_d(&mut env, x, &CtorInfo { id: 1, layout: l }, body);
    assert_eq!(out, Stmt::Refcounting(ModifyRc::Dec(x), Box::new(Stmt::Ret(y))));
}

#[test]
fn try_step_plants_reset_above_searched_subtree() {
    let x = sym(10);
    let y = sym(1);
    let l = UnionLayout::NonRecursive(2);
    let body = Stmt::Let(
        y,
        tag(l, 0, 4, vec![]),
        Layout::Union(l),
        Box::new(Stmt::Ret(y)),
    );
    let mut env = fresh_env(50);
    let out = try_function_s(&mut env, x, &CtorInfo { id: 1, layout: l }, body);
    let w = sym(50);
    let expected = Stmt::Let(
        w,
        Expr::Reset(x),
        Layout::Union(l),
        Box::new(Stmt::Let(
            y,
            reuse(w, l, 0, 4, vec![]),
            Layout::Union(l),
            Box::new(Stmt::Ret(y)),
        )),
    );
    assert_eq!(out, expected);
}

#[test]
fn jump_inherits_join_body_liveness() {
    // join j(): ret v  in  jump j() — v is live at the jump although it is
    // not among the jump's arguments.
    let v = sym(5);
    let q = sym(6);
    let stmt = Stmt::Join {
        id: 7,
        parameters: vec![],
        body: Box::new(Stmt::Ret(v)),
        remainder: Box::new(Stmt::Jump(7, vec![])),
    };
    let mut m = JoinLiveness::new();
    assert!(has_live_var(&mut m, &stmt, v));
    assert!(!has_live_var(&mut m, &stmt, q));
}

#[test]
fn collect_stmt_gathers_referenced_symbols() {
    let y = sym(1);
    let v = sym(5);
    let z = sym(6);
    let q = sym(9);
    let stmt = Stmt::Let(
        y,
        Expr::Struct(vec![v]),
        Layout::Builtin(0),
        Box::new(Stmt::Ret(z)),
    );
    let mut m = JoinLiveness::new();
    let set = collect_stmt(&mut m, &stmt, VarSet::new());
    assert!(set.contains(v));
    assert!(set.contains(z));
    assert!(!set.contains(q));
}

#[test]
fn insert_reset_reuse_rewrites_union_switch_branch() {
    let x = sym(10);
    let y = sym(1);
    let a = sym(2);
    let b = sym(3);
    let l = UnionLayout::Recursive(1);
    let branch_body = Stmt::Let(
        y,
        tag(l, 2, 9, vec![a, b]),
        Layout::Union(l),
        Box::new(Stmt::Refcounting(ModifyRc::Dec(x), Box::new(Stmt::Ret(y)))),
    );
    let proc = Proc {
        args: vec![],
        body: Stmt::Switch {
            cond_symbol: x,
            cond_layout: Layout::Union(l),
            branches: Box::new(Branches::Cons {
                tag: 1,
                body: branch_body,
                rest: Box::new(Branches::Nil),
            }),
            default_branch: Box::new(Stmt::Ret(a)),
            ret_layout: Layout::Union(l),
        },
        ret_layout: Layout::Union(l),
    };
    let mut ids = IdentIds { next: 100 };
    let out = insert_reset_reuse(0, &mut ids, proc);
    let w = sym(100);
    let expected_branch = Stmt::Let(
        w,
        Expr::Reset(x),
        Layout::Union(l),
        Box::new(Stmt::Let(
            y,
            reuse(w, l, 2, 9, vec![a, b]),
            Layout::Union(l),
            Box::new(Stmt::Ret(y)),
        )),
    );
    let expected = Stmt::Switch {
        cond_symbol: x,
        cond_layout: Layout::Union(l),
        branches: Box::new(Branches::Cons {
            tag: 1,
            body: expected_branch,
            rest: Box::new(Branches::Nil),
        }),
        default_branch: Box::new(Stmt::Ret(a)),
        ret_layout: Layout::Union(l),
    };
    assert_eq!(out.body, expected);
    assert!(ids.next > 100);
}

#[test]
fn non_union_switch_is_left_alone() {
    let x = sym(10);
    let a = sym(2);
    let proc = Proc {
        args: vec![],
        body: Stmt::Switch {
            cond_symbol: x,
            cond_layout: Layout::Builtin(0),
            branches: Box::new(Branches::Cons {
                tag: 0,
                body: Stmt::Ret(a),
                rest: Box::new(Branches::Nil),
            }),
            default_branch: Box::new(Stmt::Ret(x)),
            ret_layout: Layout::Builtin(0),
        },
        ret_layout: Layout::Builtin(0),
    };
    let mut ids = IdentIds { next: 50 };
    let out = insert_reset_reuse(0, &mut ids, proc);
    let expected = Stmt::Switch {
        cond_symbol: x,
        cond_layout: Layout::Builtin(0),
        branches: Box::new(Branches::Cons {
            tag: 0,
            body: Stmt::Ret(a),
            rest: Box::new(Branches::Nil),
        }),
        default_branch: Box::new(Stmt::Ret(x)),
        ret_layout: Layout::Builtin(0),
    };
    assert_eq!(out.body, expected);
    assert_eq!(ids.next, 50);
}

#[test]
fn each_branch_may_reuse_the_donor_once() {
    // The donor dies once per control path, so each branch of a switch may
    // consume it independently.
    let y = sym(1);
    let z = sym(2);
    let cond = sym(4);
    let w = sym(50);
    let l = UnionLayout::Recursive(1);
    let branch_body = Stmt::Let(
        y,
        tag(l, 0, 5, vec![]),
        Layout::Union(l),
        Box::new(Stmt::Ret(y)),
    );
    let default_body = Stmt::Let(
        z,
        tag(l, 1, 6, vec![]),
        Layout::Union(l),
        Box::new(Stmt::Ret(z)),
    );
    let stmt = Stmt::Switch {
        cond_symbol: cond,
        cond_layout: Layout::Union(l),
        branches: Box::new(Branches::Cons {
            tag: 0,
            body: branch_body,
            rest: Box::new(Branches::Nil),
        }),
        default_branch: Box::new(default_body),
        ret_layout: Layout::Union(l),
    };
    let (out, found) = function_s(w, &CtorInfo { id: 0, layout: l }, stmt);
    assert!(found);
    let expected = Stmt::Switch {
        cond_symbol: cond,
        cond_layout: Layout::Union(l),
        branches: Box::new(Branches::Cons {
            tag: 0,
            body: Stmt::Let(
                y,
                reuse(w, l, 0, 5, vec![]),
                Layout::Union(l),
                Box::new(Stmt::Ret(y)),
            ),
            rest: Box::new(Branches::Nil),
        }),
        default_branch: Box::new(Stmt::Let(
            z,
            reuse(w, l, 1, 6, vec![]),
            Layout::Union(l),
            Box::new(Stmt::Ret(z)),
        )),
        ret_layout: Layout::Union(l),
    };
    assert_eq!(out, expected);
}

#[test]
fn search_stops_at_first_match_on_a_path() {
    let y1 = sym(1);
    let y2 = sym(2);
    let w = sym(50);
    let l = UnionLayout::Recursive(1);
    let stmt = Stmt::Let(
        y1,
        tag(l, 0, 5, vec![]),
        Layout::Union(l),
        Box::new(Stmt::Let(
            y2,
            tag(l, 1, 6, vec![]),
            Layout::Union(l),
            Box::new(Stmt::Ret(y2)),
        )),
    );
    let (out, found) = function_s(w, &CtorInfo { id: 0, layout: l }, stmt);
    assert!(found);
    let expected = Stmt::Let(
        y1,
        reuse(w, l, 0, 5, vec![]),
        Layout::Union(l),
        Box::new(Stmt::Let(
            y2,
            tag(l, 1, 6, vec![]),
            Layout::Union(l),
            Box::new(Stmt::Ret(y2)),
        )),
    );
    assert_eq!(out, expected);
}

#[test]
fn search_prefers_join_body_and_leaves_remainder() {
    let y = sym(1);
    let z = sym(2);
    let w = sym(50);
    let l = UnionLayout::Recursive(1);
    let stmt = Stmt::Join {
        id: 3,
        parameters: vec![],
        body: Box::new(Stmt::Let(
            y,
            tag(l, 0, 5, vec![]),
            Layout::Union(l),
            Box::new(Stmt::Ret(y)),
        )),
        remainder: Box::new(Stmt::Let(
            z,
            tag(l, 1, 6, vec![]),
            Layout::Union(l),
            Box::new(Stmt::Jump(3, vec![])),
        )),
    };
    let (out, found) = function_s(w, &CtorInfo { id: 0, layout: l }, stmt);
    assert!(found);
    let expected = Stmt::Join {
        id: 3,
        parameters: vec![],
        body: Box::new(Stmt::Let(
            y,
            reuse(w, l, 0, 5, vec![]),
            Layout::Union(l),
            Box::new(Stmt::Ret(y)),
        )),
        remainder: Box::new(Stmt::Let(
            z,
            tag(l, 1, 6, vec![]),
            Layout::Union(l),
            Box::new(Stmt::Jump(3, vec![])),
        )),
    };
    assert_eq!(out, expected);
}

#[test]
fn pending_increment_of_the_donor_blocks_the_reset() {
    let x = sym(10);
    let y = sym(1);
    let l = UnionLayout::Recursive(1);
    let build = || {
        Stmt::Let(
            y,
            tag(l, 2, 9, vec![]),
            Layout::Union(l),
            Box::new(Stmt::Refcounting(ModifyRc::Inc(x, 1), Box::new(Stmt::Ret(y)))),
        )
    };
    let mut env = fresh_env(100);
    let out = function_d(&mut env, x, &CtorInfo { id: 1, layout: l }, build());
    assert_eq!(out, build());
}
