//! The refcounted intermediate representation that the reuse pass rewrites:
//! statement trees with explicit join points, the expressions bound by `Let`
//! nodes, and the physical layout descriptors of tagged unions.

use vstd::prelude::*;

verus! {

/// A variable of the intermediate representation, unique within a compilation
/// unit: the module that minted it plus an identifier within that module.
#[derive(Clone, Copy, PartialEq, Eq, Structural, Debug)]
pub struct Symbol {
    pub module: u32,
    pub ident: u64,
}

/// Identifier of a join point, addressable by `Stmt::Jump`.
pub type JoinPointId = u64;

/// How a tagged union is physically represented.  The per-variant field
/// layouts are identified by an interned shape code, so equality of two
/// descriptors is structural equality of these fields.
#[derive(Clone, Copy, PartialEq, Eq, Structural, Debug)]
pub enum UnionLayout {
    /// Every variant is materialized in one block; the union is not recursive.
    NonRecursive(u32),
    /// A recursive union; every variant is materialized.
    Recursive(u32),
    /// A recursive union with a single variant, stored without a tag.
    NonNullableUnwrapped(u32),
    /// One tag id among several is encoded as a null pointer; the rest are
    /// materialized.
    NullableWrapped { nullable_id: i64, other_tags: u32 },
    /// Exactly two variants, one of which is encoded as null.  `nullable_id`
    /// tells whether tag id 1 (`true`) or tag id 0 (`false`) is the null one.
    NullableUnwrapped { nullable_id: bool, other_fields: u32 },
}

/// The layout of a value: either a scalar/builtin layout identified by an
/// interned code, or a tagged union.
#[derive(Clone, Copy, PartialEq, Eq, Structural, Debug)]
pub enum Layout {
    Builtin(u32),
    Union(UnionLayout),
}

/// A parameter of a join point.
#[derive(Clone, Copy, PartialEq, Eq, Structural, Debug)]
pub struct Param {
    pub symbol: Symbol,
    pub layout: Layout,
}

/// A reference-count mutation on a symbol.
#[derive(Clone, Copy, PartialEq, Eq, Structural, Debug)]
pub enum ModifyRc {
    /// Increment the count, by the given amount.
    Inc(Symbol, u64),
    /// Decrement the count, freeing the cell when it reaches zero.
    Dec(Symbol),
    /// Decrement the count without recursing into the children.
    DecRef(Symbol),
}

impl ModifyRc {
    /// The symbol whose count the operation changes.
    pub open spec fn spec_get_symbol(self) -> Symbol {
        match self {
            ModifyRc::Inc(s, _) => s,
            ModifyRc::Dec(s) => s,
            ModifyRc::DecRef(s) => s,
        }
    }

    /// The symbol whose count the operation changes.
    pub fn get_symbol(&self) -> (r: Symbol)
        ensures
            r == self.spec_get_symbol(),
    {
        match self {
            ModifyRc::Inc(s, _) => *s,
            ModifyRc::Dec(s) => *s,
            ModifyRc::DecRef(s) => *s,
        }
    }
}

/// A call to another procedure; only the arguments matter to this pass.
#[derive(PartialEq, Eq, Debug)]
pub struct Call {
    pub arguments: Vec<Symbol>,
}

/// A value-producing right-hand side of a `Let`.
#[derive(PartialEq, Eq, Debug)]
pub enum Expr {
    /// A literal constant, identified by an interned code.
    Literal(u64),
    /// A call to another procedure.
    Call(Call),
    /// An array of the given symbols.
    Array { elem_layout: Layout, elems: Vec<Symbol> },
    /// The empty array.
    EmptyArray,
    /// Construction of a tagged-union value.
    Tag { tag_layout: UnionLayout, tag_id: u8, tag_name: u64, arguments: Vec<Symbol> },
    /// Construction of a struct from the given symbols.
    Struct(Vec<Symbol>),
    /// Projection of a struct field.
    StructAtIndex { index: u64, structure: Symbol },
    /// Read the tag id of a union value.
    GetTagId { structure: Symbol },
    /// Projection of a field out of a union variant.
    UnionAtIndex { structure: Symbol, tag_id: u8, index: u64 },
    /// Mark the cell of `Reset`'s symbol as reclaimable without freeing it.
    /// Introduced by this pass only; never present in its input.
    Reset(Symbol),
    /// Construct a tagged value by overwriting the reset cell named by
    /// `symbol` instead of allocating.  Introduced by this pass only.
    Reuse {
        symbol: Symbol,
        update_tag_id: bool,
        tag_layout: UnionLayout,
        tag_id: u8,
        tag_name: u64,
        arguments: Vec<Symbol>,
    },
    /// A function that only raises a runtime error, identified by a code.
    RuntimeErrorFunction(u64),
}

/// The branches of a `Switch`, each a discriminant value with its body.
#[derive(PartialEq, Eq, Debug)]
pub enum Branches {
    Nil,
    Cons { tag: u64, body: Stmt, rest: Box<Branches> },
}

/// A statement tree: the body of a procedure.  Control flow is explicit, and
/// join points are addressed by identifier, so the tree is acyclic.
#[derive(PartialEq, Eq, Debug)]
pub enum Stmt {
    /// Bind a symbol to an expression's value and continue.
    Let(Symbol, Expr, Layout, Box<Stmt>),
    /// Branch on a scrutinee symbol.
    Switch {
        cond_symbol: Symbol,
        cond_layout: Layout,
        branches: Box<Branches>,
        default_branch: Box<Stmt>,
        ret_layout: Layout,
    },
    /// Return the symbol's value.
    Ret(Symbol),
    /// Perform a reference-count mutation and continue.
    Refcounting(ModifyRc, Box<Stmt>),
    /// Declare a reusable continuation `body`, addressable by `id` from
    /// within `body` and `remainder`.
    Join { id: JoinPointId, parameters: Vec<Param>, body: Box<Stmt>, remainder: Box<Stmt> },
    /// Transfer control to a join body, binding its parameters.
    Jump(JoinPointId, Vec<Symbol>),
    /// A call that may raise; `pass` and `fail` are the continuations.
    Invoke {
        symbol: Symbol,
        call: Call,
        layout: Layout,
        pass: Box<Stmt>,
        fail: Box<Stmt>,
        exception_id: u64,
    },
    /// Resume the exception handler with the given id.
    Resume(u64),
    /// Abort with a runtime error, identified by a code.
    RuntimeError(u64),
}

/// A procedure: its parameters, its body, and its return layout.
#[derive(PartialEq, Eq, Debug)]
pub struct Proc {
    pub args: Vec<Param>,
    pub body: Stmt,
    pub ret_layout: Layout,
}

/// Whether the expression mentions the symbol as an operand.
pub open spec fn expr_uses(e: Expr, x: Symbol) -> bool {
    match e {
        Expr::Literal(_) => false,
        Expr::Call(c) => c.arguments@.contains(x),
        Expr::Array { elems, .. } => elems@.contains(x),
        Expr::EmptyArray => false,
        Expr::Tag { arguments, .. } => arguments@.contains(x),
        Expr::Struct(fields) => fields@.contains(x),
        Expr::StructAtIndex { structure, .. } => structure == x,
        Expr::GetTagId { structure } => structure == x,
        Expr::UnionAtIndex { structure, .. } => structure == x,
        Expr::Reset(s) => s == x,
        Expr::Reuse { symbol, arguments, .. } => symbol == x || arguments@.contains(x),
        Expr::RuntimeErrorFunction(_) => false,
    }
}

/// The trees the analysis covers: no `Invoke` statements and no `Call`
/// expressions, which are outside the analysis.
pub open spec fn stmt_supported(s: Stmt) -> bool
    decreases s,
{
    match s {
        Stmt::Let(_, e, _, cont) => expr_supported(e) && stmt_supported(*cont),
        Stmt::Switch { branches, default_branch, .. } => branches_supported(*branches)
            && stmt_supported(*default_branch),
        Stmt::Ret(_) => true,
        Stmt::Refcounting(_, cont) => stmt_supported(*cont),
        Stmt::Join { body, remainder, .. } => stmt_supported(*body) && stmt_supported(*remainder),
        Stmt::Jump(_, _) => true,
        Stmt::Invoke { .. } => false,
        Stmt::Resume(_) => true,
        Stmt::RuntimeError(_) => true,
    }
}

/// `stmt_supported`, over a branch list.
pub open spec fn branches_supported(b: Branches) -> bool
    decreases b,
{
    match b {
        Branches::Nil => true,
        Branches::Cons { body, rest, .. } => stmt_supported(body) && branches_supported(*rest),
    }
}

/// Whether the expression is covered by the analysis: not a `Call`.
pub open spec fn expr_supported(e: Expr) -> bool {
    !(e matches Expr::Call(_))
}

/// The pass's own output forms, `Reset` and `Reuse`, must not already occur
/// in its input.
pub open spec fn stmt_reuse_free(s: Stmt) -> bool
    decreases s,
{
    match s {
        Stmt::Let(_, e, _, cont) => expr_reuse_free(e) && stmt_reuse_free(*cont),
        Stmt::Switch { branches, default_branch, .. } => branches_reuse_free(*branches)
            && stmt_reuse_free(*default_branch),
        Stmt::Ret(_) => true,
        Stmt::Refcounting(_, cont) => stmt_reuse_free(*cont),
        Stmt::Join { body, remainder, .. } => stmt_reuse_free(*body) && stmt_reuse_free(
            *remainder,
        ),
        Stmt::Jump(_, _) => true,
        Stmt::Invoke { pass, fail, .. } => stmt_reuse_free(*pass) && stmt_reuse_free(*fail),
        Stmt::Resume(_) => true,
        Stmt::RuntimeError(_) => true,
    }
}

/// `stmt_reuse_free`, over a branch list.
pub open spec fn branches_reuse_free(b: Branches) -> bool
    decreases b,
{
    match b {
        Branches::Nil => true,
        Branches::Cons { body, rest, .. } => stmt_reuse_free(body) && branches_reuse_free(*rest),
    }
}

/// Whether the expression is neither a `Reset` nor a `Reuse`.
pub open spec fn expr_reuse_free(e: Expr) -> bool {
    !(e matches Expr::Reset(_)) && !(e matches Expr::Reuse { .. })
}

/// Every `Jump` in the tree targets a join id in `bound` or one declared by
/// an enclosing `Join` of the tree itself.
pub open spec fn jumps_bound(s: Stmt, bound: Set<JoinPointId>) -> bool
    decreases s,
{
    match s {
        Stmt::Let(_, _, _, cont) => jumps_bound(*cont, bound),
        Stmt::Switch { branches, default_branch, .. } => branches_jumps_bound(*branches, bound)
            && jumps_bound(*default_branch, bound),
        Stmt::Ret(_) => true,
        Stmt::Refcounting(_, cont) => jumps_bound(*cont, bound),
        Stmt::Join { id, body, remainder, .. } => jumps_bound(*body, bound.insert(id))
            && jumps_bound(*remainder, bound.insert(id)),
        Stmt::Jump(id, _) => bound.contains(id),
        Stmt::Invoke { pass, fail, .. } => jumps_bound(*pass, bound) && jumps_bound(*fail, bound),
        Stmt::Resume(_) => true,
        Stmt::RuntimeError(_) => true,
    }
}

/// `jumps_bound`, over a branch list.
pub open spec fn branches_jumps_bound(b: Branches, bound: Set<JoinPointId>) -> bool
    decreases b,
{
    match b {
        Branches::Nil => true,
        Branches::Cons { body, rest, .. } => jumps_bound(body, bound) && branches_jumps_bound(
            *rest,
            bound,
        ),
    }
}


/// Whether the symbol is bound anywhere in the tree, by a `Let`, an
/// `Invoke`, or a join-point parameter list.
pub open spec fn binds(s: Stmt, x: Symbol) -> bool
    decreases s,
{
    match s {
        Stmt::Let(sym, _, _, cont) => sym == x || binds(*cont, x),
        Stmt::Switch { branches, default_branch, .. } => branches_bind(*branches, x) || binds(
            *default_branch,
            x,
        ),
        Stmt::Ret(_) => false,
        Stmt::Refcounting(_, cont) => binds(*cont, x),
        Stmt::Join { parameters, body, remainder, .. } => (exists|i: int|
            0 <= i < parameters@.len() && parameters@[i].symbol == x) || binds(*body, x) || binds(
            *remainder,
            x,
        ),
        Stmt::Jump(_, _) => false,
        Stmt::Invoke { symbol, pass, fail, .. } => symbol == x || binds(*pass, x) || binds(
            *fail,
            x,
        ),
        Stmt::Resume(_) => false,
        Stmt::RuntimeError(_) => false,
    }
}

/// `binds`, over a branch list.
pub open spec fn branches_bind(b: Branches, x: Symbol) -> bool
    decreases b,
{
    match b {
        Branches::Nil => false,
        Branches::Cons { body, rest, .. } => binds(body, x) || branches_bind(*rest, x),
    }
}

/// Whether the symbol stays below the identifier counter `n` of module
/// `module`: a symbol of another module always does, one of this module
/// only when its identifier was minted before `n`.
pub open spec fn sym_below(y: Symbol, module: u32, n: u64) -> bool {
    y.module == module ==> y.ident < n
}

/// Every symbol the expression mentions stays below the counter.
pub open spec fn expr_idents_below(e: Expr, module: u32, n: u64) -> bool {
    forall|y: Symbol| #[trigger] expr_uses(e, y) ==> sym_below(y, module, n)
}

/// Every symbol occurring in the tree — bound, read, decremented, jumped
/// with, or a join parameter — stays below the identifier counter: the
/// counter has minted past everything the tree holds, so anything it mints
/// next is fresh for the tree.
pub open spec fn stmt_idents_below(s: Stmt, module: u32, n: u64) -> bool
    decreases s,
{
    match s {
        Stmt::Let(sym, e, _, cont) => sym_below(sym, module, n) && expr_idents_below(e, module, n)
            && stmt_idents_below(*cont, module, n),
        Stmt::Switch { cond_symbol, branches, default_branch, .. } => sym_below(
            cond_symbol,
            module,
            n,
        ) && branches_idents_below(*branches, module, n) && stmt_idents_below(
            *default_branch,
            module,
            n,
        ),
        Stmt::Ret(x) => sym_below(x, module, n),
        Stmt::Refcounting(op, cont) => sym_below(op.spec_get_symbol(), module, n)
            && stmt_idents_below(*cont, module, n),
        Stmt::Join { parameters, body, remainder, .. } => (forall|i: int|
            0 <= i < parameters@.len() ==> sym_below(#[trigger] parameters@[i].symbol, module, n))
            && stmt_idents_below(*body, module, n) && stmt_idents_below(*remainder, module, n),
        Stmt::Jump(_, args) => forall|i: int|
            0 <= i < args@.len() ==> sym_below(#[trigger] args@[i], module, n),
        Stmt::Invoke { symbol, call, pass, fail, .. } => sym_below(symbol, module, n) && (forall|
            i: int,
        |
            0 <= i < call.arguments@.len() ==> sym_below(
                #[trigger] call.arguments@[i],
                module,
                n,
            )) && stmt_idents_below(*pass, module, n) && stmt_idents_below(*fail, module, n),
        Stmt::Resume(_) => true,
        Stmt::RuntimeError(_) => true,
    }
}

/// `stmt_idents_below`, over a branch list.
pub open spec fn branches_idents_below(b: Branches, module: u32, n: u64) -> bool
    decreases b,
{
    match b {
        Branches::Nil => true,
        Branches::Cons { body, rest, .. } => stmt_idents_below(body, module, n)
            && branches_idents_below(*rest, module, n),
    }
}

/// Every switch scrutinee is bound outside the switch: no branch or
/// default re-binds it.  Part of the input tree's no-shadowing invariant,
/// and what lets the scrutinee serve as a reuse donor for its branches.
pub open spec fn scrutinees_unbound(s: Stmt) -> bool
    decreases s,
{
    match s {
        Stmt::Let(_, _, _, cont) => scrutinees_unbound(*cont),
        Stmt::Switch { cond_symbol, branches, default_branch, .. } => !branches_bind(
            *branches,
            cond_symbol,
        ) && !binds(*default_branch, cond_symbol) && branches_scrutinees_unbound(*branches)
            && scrutinees_unbound(*default_branch),
        Stmt::Ret(_) => true,
        Stmt::Refcounting(_, cont) => scrutinees_unbound(*cont),
        Stmt::Join { body, remainder, .. } => scrutinees_unbound(*body) && scrutinees_unbound(
            *remainder,
        ),
        Stmt::Jump(_, _) => true,
        Stmt::Invoke { pass, fail, .. } => scrutinees_unbound(*pass) && scrutinees_unbound(*fail),
        Stmt::Resume(_) => true,
        Stmt::RuntimeError(_) => true,
    }
}

/// `scrutinees_unbound`, over a branch list.
pub open spec fn branches_scrutinees_unbound(b: Branches) -> bool
    decreases b,
{
    match b {
        Branches::Nil => true,
        Branches::Cons { body, rest, .. } => scrutinees_unbound(body)
            && branches_scrutinees_unbound(*rest),
    }
}

/// A tree below one counter value is below every later one./// A tree below one counter value is below every later one.
pub proof fn lemma_idents_below_le(s: Stmt, module: u32, n1: u64, n2: u64)
    requires
        stmt_idents_below(s, module, n1),
        n1 <= n2,
    ensures
        stmt_idents_below(s, module, n2),
    decreases s,
{
    match s {
        Stmt::Let(_, e, _, cont) => {
            assert forall|y: Symbol| #[trigger] expr_uses(e, y) implies sym_below(
                y,
                module,
                n2,
            ) by {}
            lemma_idents_below_le(*cont, module, n1, n2);
        },
        Stmt::Switch { branches, default_branch, .. } => {
            lemma_branches_idents_below_le(*branches, module, n1, n2);
            lemma_idents_below_le(*default_branch, module, n1, n2);
        },
        Stmt::Refcounting(_, cont) => {
            lemma_idents_below_le(*cont, module, n1, n2);
        },
        Stmt::Join { body, remainder, .. } => {
            lemma_idents_below_le(*body, module, n1, n2);
            lemma_idents_below_le(*remainder, module, n1, n2);
        },
        Stmt::Invoke { call, pass, fail, .. } => {
            lemma_idents_below_le(*pass, module, n1, n2);
            lemma_idents_below_le(*fail, module, n1, n2);
        },
        _ => {},
    }
}

/// `lemma_idents_below_le`, over a branch list.
pub proof fn lemma_branches_idents_below_le(b: Branches, module: u32, n1: u64, n2: u64)
    requires
        branches_idents_below(b, module, n1),
        n1 <= n2,
    ensures
        branches_idents_below(b, module, n2),
    decreases b,
{
    match b {
        Branches::Nil => {},
        Branches::Cons { body, rest, .. } => {
            lemma_idents_below_le(body, module, n1, n2);
            lemma_branches_idents_below_le(*rest, module, n1, n2);
        },
    }
}


/// A symbol at or past the counter is bound nowhere in a tree whose
/// symbols all lie below the counter: what the counter mints next is fresh
/// for the tree.
pub proof fn lemma_below_not_bound(s: Stmt, module: u32, n: u64, y: Symbol)
    requires
        stmt_idents_below(s, module, n),
        y.module == module,
        y.ident >= n,
    ensures
        !binds(s, y),
    decreases s,
{
    match s {
        Stmt::Let(_, _, _, cont) => {
            lemma_below_not_bound(*cont, module, n, y);
        },
        Stmt::Switch { branches, default_branch, .. } => {
            lemma_branches_below_not_bound(*branches, module, n, y);
            lemma_below_not_bound(*default_branch, module, n, y);
        },
        Stmt::Refcounting(_, cont) => {
            lemma_below_not_bound(*cont, module, n, y);
        },
        Stmt::Join { parameters, body, remainder, .. } => {
            assert forall|i: int| 0 <= i < parameters@.len() implies parameters@[i].symbol
                != y by {
                assert(sym_below(parameters@[i].symbol, module, n));
            }
            lemma_below_not_bound(*body, module, n, y);
            lemma_below_not_bound(*remainder, module, n, y);
        },
        Stmt::Invoke { pass, fail, .. } => {
            lemma_below_not_bound(*pass, module, n, y);
            lemma_below_not_bound(*fail, module, n, y);
        },
        _ => {},
    }
}

/// `lemma_below_not_bound`, over a branch list.
pub proof fn lemma_branches_below_not_bound(b: Branches, module: u32, n: u64, y: Symbol)
    requires
        branches_idents_below(b, module, n),
        y.module == module,
        y.ident >= n,
    ensures
        !branches_bind(b, y),
    decreases b,
{
    match b {
        Branches::Nil => {},
        Branches::Cons { body, rest, .. } => {
            lemma_below_not_bound(body, module, n, y);
            lemma_branches_below_not_bound(*rest, module, n, y);
        },
    }
}

} // verus!
