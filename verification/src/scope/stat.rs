//! Statements, the point at which each one's declarations become visible, and where labels sit.
use vstd::prelude::*;

use super::expr::{bound_in, lemma_bound_grows, read_refused, refused_in};
use super::binding::Binding;
use super::label::Goto;
use super::resolver::{env_name, grows, global_named, lemma_seen, local_named, scope_of, scoped, seen, Declaration, Resolver, Scoped};
use crate::ast::{Ast, BlockId, Expr, ExprId, ExprKind, Field, Func, Stat, StatId, StatKind, Vararg};
use vstd::string::StringSliceAdditionalSpecFns;
use crate::error::{Error, ErrorKind};

verus! {

/// An error about labels rather than names.
pub open spec fn label_error(kind: ErrorKind) -> bool {
    ||| kind is LabelAlreadyDefined
    ||| kind is NoVisibleLabel
    ||| kind is JumpIntoScope
}

/// Some expression of the list reads a refused name.
pub open spec fn some_refused(ex: Seq<Expr>, d: Seq<Scoped>, ids: Seq<ExprId>) -> bool {
    exists|i: int| 0 <= i < ids.len() && refused_in(ex, d, #[trigger] ids[i].id())
}

/// Writing `name` is refused: reading it is, or it is read-only.
pub open spec fn write_refused(d: Seq<Scoped>, name: Seq<u8>) -> bool {
    ||| read_refused(d, name)
    ||| seen(d, name) matches Some((_, readonly)) && readonly
}

/// Assigning to expression `id` is refused: a name that cannot be written, or any other
/// expression that reads a refused name.
pub open spec fn target_refused(ex: Seq<Expr>, d: Seq<Scoped>, id: int) -> bool {
    match ex[id].kind {
        ExprKind::Name(n) => write_refused(d, n@),
        _ => refused_in(ex, d, id),
    }
}

/// The statement reads or writes a refused name in the expressions it resolves where the
/// declarations are still those before it: its targets and values, an initializer (before
/// the names it declares exist), a loop's condition or bounds, the first condition of an
/// `if`, the values returned.
pub open spec fn refuses_directly(ex: Seq<Expr>, d: Seq<Scoped>, kind: StatKind) -> bool {
    match kind {
        StatKind::Expr(call) => refused_in(ex, d, call.id()),
        StatKind::Assign { targets, values } => (exists|j: int|
            0 <= j < targets@.len() && target_refused(ex, d, #[trigger] targets@[j].id())) || some_refused(ex, d, values@),
        StatKind::Local { values, .. } => some_refused(ex, d, values@),
        StatKind::Global { values, .. } => some_refused(ex, d, values@),
        StatKind::Function { target, .. } => target_refused(ex, d, target.id()),
        StatKind::While { condition, .. } => refused_in(ex, d, condition.id()),
        StatKind::NumericFor { start, limit, step, .. } => refused_in(ex, d, start.id()) || refused_in(ex, d, limit.id()) || (
        step matches Some(s) && refused_in(ex, d, s.id())),
        StatKind::GenericFor { exprs, .. } => some_refused(ex, d, exprs@),
        StatKind::If { arms, .. } => arms@.len() > 0 && refused_in(ex, d, arms@[0].0.id()),
        StatKind::Return(values) => some_refused(ex, d, values@),
        _ => false,
    }
}

/// `after` is `before` with the declarations the statement makes for what follows it: its
/// locals (read-only where they carry an attribute), its globals, the wildcard of
/// `global *`, a named function; every other statement leaves the declarations as they were.
pub(crate) open spec fn declares(before: Seq<Declaration>, after: Seq<Declaration>, kind: StatKind) -> bool {
    let n = before.len() as int;
    &&& n <= after.len()
    &&& forall|i: int| 0 <= i < n ==> #[trigger] after[i] == before[i]
    &&& match kind {
        StatKind::Local { names, .. } => after.len() == n + names@.len() && forall|i: int|
            0 <= i < names@.len() ==> local_named(#[trigger] after[n + i], names@[i].name@, names@[i].attribute is Some),
        StatKind::Global { names, .. } => after.len() == n + names@.len() && forall|i: int|
            0 <= i < names@.len() ==> global_named(#[trigger] after[n + i], Some(names@[i].name@), names@[i].attribute is Some),
        StatKind::GlobalAll { attribute } => after.len() == n + 1 && global_named(after[n], None, attribute is Some),
        StatKind::GlobalFunction { name, .. } => after.len() == n + 1 && global_named(after[n], Some(name@), false),
        StatKind::LocalFunction { name, .. } => after.len() == n + 1 && local_named(after[n], name@, false),
        _ => after.len() == n,
    }
}

/// What the statement adds to the scope of what follows it.
pub open spec fn introduced(kind: StatKind) -> Seq<Scoped> {
    match kind {
        StatKind::Local { names, .. } => Seq::new(
            names@.len(),
            |i: int| Scoped { name: Some(names@[i].name@), local: true, global: false, readonly: names@[i].attribute is Some },
        ),
        StatKind::Global { names, .. } => Seq::new(
            names@.len(),
            |i: int| Scoped { name: Some(names@[i].name@), local: false, global: true, readonly: names@[i].attribute is Some },
        ),
        StatKind::GlobalAll { attribute } => seq![Scoped { name: None, local: false, global: true, readonly: attribute is Some }],
        StatKind::GlobalFunction { name, .. } => seq![Scoped { name: Some(name@), local: false, global: true, readonly: false }],
        StatKind::LocalFunction { name, .. } => seq![Scoped { name: Some(name@), local: true, global: false, readonly: false }],
        _ => Seq::empty(),
    }
}

/// The scope after the first `j` statements of a list, starting from `s`.
pub open spec fn scope_after(stats: Seq<Stat>, ids: Seq<StatId>, s: Seq<Scoped>, j: int) -> Seq<Scoped>
    decreases j,
{
    if j <= 0 {
        s
    } else {
        scope_after(stats, ids, s, j - 1) + introduced(stats[ids[j - 1].id()].kind)
    }
}

/// The names of a generic `for`, of which only the first, the control variable, is read-only.
pub open spec fn loop_names(names: Seq<&[u8]>) -> Seq<Scoped> {
    Seq::new(names.len(), |i: int| Scoped { name: Some(names[i]@), local: true, global: false, readonly: i == 0 })
}

/// A local of a function's own, read-only or not.
pub open spec fn own_local(name: Seq<u8>, readonly: bool) -> Scoped {
    Scoped { name: Some(name), local: true, global: false, readonly }
}

/// What a function's body sees besides the scope it was made in: `self` for a method, its
/// parameters, and the name given to `...`, which is read-only.
pub open spec fn params_scope(f: Func) -> Seq<Scoped> {
    let own = if f.is_method {
        seq![own_local("self".spec_bytes(), false)]
    } else {
        Seq::empty()
    };
    let params = Seq::new(f.params@.len(), |i: int| own_local(f.params@[i]@, false));
    let rest = match f.vararg {
        Some(Vararg::Named(name)) => seq![own_local(name@, true)],
        _ => Seq::empty(),
    };
    own + params + rest
}

/// Function `f`'s body reads or writes a refused name, where the scope it was made in is `s`.
pub open spec fn func_refused(ast: Ast, s: Seq<Scoped>, f: int) -> bool
    decreases ast.born().funcs[f],
{
    if 0 <= f < ast.funcs().len() {
        let body = ast.funcs()[f].body.id();
        0 <= body < ast.blocks().len() && ast.born().blocks[body] < ast.born().funcs[f] && block_refused(
            ast,
            s + params_scope(ast.funcs()[f]),
            body,
        )
    } else {
        false
    }
}

/// Expression `e` names an expression of the tree made before `t`.
pub open spec fn made_before(ast: Ast, e: ExprId, t: nat) -> bool {
    0 <= e.id() < ast.exprs().len() && ast.born().exprs[e.id()] < t
}

/// A function made in expression `e`, outside the bodies of the functions that make it, has a
/// body that reads or writes a refused name, where the scope is `s`.
pub open spec fn makes_refused(ast: Ast, s: Seq<Scoped>, e: int) -> bool
    decreases ast.born().exprs[e],
{
    if 0 <= e < ast.exprs().len() {
        let t = ast.born().exprs[e];
        match ast.exprs()[e].kind {
            ExprKind::Function(f) => 0 <= f.id() < ast.funcs().len() && ast.born().funcs[f.id()] < t && func_refused(ast, s, f.id()),
            ExprKind::Paren(inner) => made_before(ast, inner, t) && makes_refused(ast, s, inner.id()),
            ExprKind::Index { object, key } => (made_before(ast, object, t) && makes_refused(ast, s, object.id())) || (
            made_before(ast, key, t) && makes_refused(ast, s, key.id())),
            ExprKind::Call { callee, args } => (made_before(ast, callee, t) && makes_refused(ast, s, callee.id())) || exists|i: int|
                #![trigger args@[i]]
                0 <= i < args@.len() && made_before(ast, args@[i], t) && makes_refused(ast, s, args@[i].id()),
            ExprKind::Method { object, args, .. } => (made_before(ast, object, t) && makes_refused(ast, s, object.id())) || exists|
                i: int,
            |
                #![trigger args@[i]]
                0 <= i < args@.len() && made_before(ast, args@[i], t) && makes_refused(ast, s, args@[i].id()),
            ExprKind::Unary { operand, .. } => made_before(ast, operand, t) && makes_refused(ast, s, operand.id()),
            ExprKind::Binary { left, right, .. } => (made_before(ast, left, t) && makes_refused(ast, s, left.id())) || (
            made_before(ast, right, t) && makes_refused(ast, s, right.id())),
            ExprKind::Table(fields) => exists|i: int|
                #![trigger fields@[i]]
                0 <= i < fields@.len() && match fields@[i] {
                    Field::Positional(value) => made_before(ast, value, t) && makes_refused(ast, s, value.id()),
                    Field::Named { value, .. } => made_before(ast, value, t) && makes_refused(ast, s, value.id()),
                    Field::Keyed { key, value } => (made_before(ast, key, t) && makes_refused(ast, s, key.id())) || (made_before(
                        ast,
                        value,
                        t,
                    ) && makes_refused(ast, s, value.id())),
                },
            _ => false,
        }
    } else {
        false
    }
}

/// Every name read in the body of a function made in expression `e` is bound.
pub open spec fn makes_bound(ast: Ast, uses: Seq<Option<Binding>>, e: int) -> bool
    decreases ast.born().exprs[e],
{
    if 0 <= e < ast.exprs().len() {
        let t = ast.born().exprs[e];
        match ast.exprs()[e].kind {
            ExprKind::Function(f) => 0 <= f.id() < ast.funcs().len() && ast.born().funcs[f.id()] < t ==> func_bound(ast, uses, f.id()),
            ExprKind::Paren(inner) => made_before(ast, inner, t) ==> makes_bound(ast, uses, inner.id()),
            ExprKind::Index { object, key } => (made_before(ast, object, t) ==> makes_bound(ast, uses, object.id())) && (
            made_before(ast, key, t) ==> makes_bound(ast, uses, key.id())),
            ExprKind::Call { callee, args } => (made_before(ast, callee, t) ==> makes_bound(ast, uses, callee.id())) && forall|i: int|
                #![trigger args@[i]]
                0 <= i < args@.len() && made_before(ast, args@[i], t) ==> makes_bound(ast, uses, args@[i].id()),
            ExprKind::Method { object, args, .. } => (made_before(ast, object, t) ==> makes_bound(ast, uses, object.id())) && forall|
                i: int,
            |
                #![trigger args@[i]]
                0 <= i < args@.len() && made_before(ast, args@[i], t) ==> makes_bound(ast, uses, args@[i].id()),
            ExprKind::Unary { operand, .. } => made_before(ast, operand, t) ==> makes_bound(ast, uses, operand.id()),
            ExprKind::Binary { left, right, .. } => (made_before(ast, left, t) ==> makes_bound(ast, uses, left.id())) && (
            made_before(ast, right, t) ==> makes_bound(ast, uses, right.id())),
            ExprKind::Table(fields) => forall|i: int|
                #![trigger fields@[i]]
                0 <= i < fields@.len() ==> match fields@[i] {
                    Field::Positional(value) => made_before(ast, value, t) ==> makes_bound(ast, uses, value.id()),
                    Field::Named { value, .. } => made_before(ast, value, t) ==> makes_bound(ast, uses, value.id()),
                    Field::Keyed { key, value } => (made_before(ast, key, t) ==> makes_bound(ast, uses, key.id())) && (made_before(
                        ast,
                        value,
                        t,
                    ) ==> makes_bound(ast, uses, value.id())),
                },
            _ => true,
        }
    } else {
        true
    }
}

/// Every name read in function `f`'s body is bound.
pub open spec fn func_bound(ast: Ast, uses: Seq<Option<Binding>>, f: int) -> bool
    decreases ast.born().funcs[f],
{
    if 0 <= f < ast.funcs().len() {
        let body = ast.funcs()[f].body.id();
        0 <= body < ast.blocks().len() && ast.born().blocks[body] < ast.born().funcs[f] ==> block_bound(ast, uses, body)
    } else {
        true
    }
}

/// Every name read in block `b`, nested blocks and function bodies included, is bound.
pub open spec fn block_bound(ast: Ast, uses: Seq<Option<Binding>>, b: int) -> bool
    decreases ast.born().blocks[b],
{
    if 0 <= b < ast.blocks().len() {
        let ids = ast.blocks()[b].stats@;
        forall|j: int|
            #![trigger ids[j]]
            0 <= j < ids.len() && 0 <= ids[j].id() < ast.stats().len() && ast.born().stats[ids[j].id()] < ast.born().blocks[b]
                ==> stat_bound(ast, uses, ids[j].id())
    } else {
        true
    }
}

/// Every name read in statement `k`, nested blocks and function bodies included, is bound.
pub open spec fn stat_bound(ast: Ast, uses: Seq<Option<Binding>>, k: int) -> bool
    decreases ast.born().stats[k],
{
    if 0 <= k < ast.stats().len() {
        let t = ast.born().stats[k];
        match ast.stats()[k].kind {
            StatKind::Expr(call) => made_before(ast, call, t) ==> bound_in(ast.exprs(), uses, call.id()) && makes_bound(ast, uses, call.id()),
            StatKind::Assign { targets, values } => (forall|j: int|
                #![trigger targets@[j]]
                0 <= j < targets@.len() && made_before(ast, targets@[j], t) ==> bound_in(ast.exprs(), uses, targets@[j].id())
                    && makes_bound(ast, uses, targets@[j].id())) && (forall|j: int|
                #![trigger values@[j]]
                0 <= j < values@.len() && made_before(ast, values@[j], t) ==> bound_in(ast.exprs(), uses, values@[j].id())
                    && makes_bound(ast, uses, values@[j].id())),
            StatKind::Local { values, .. } => forall|j: int|
                #![trigger values@[j]]
                0 <= j < values@.len() && made_before(ast, values@[j], t) ==> bound_in(ast.exprs(), uses, values@[j].id())
                    && makes_bound(ast, uses, values@[j].id()),
            StatKind::Global { values, .. } => forall|j: int|
                #![trigger values@[j]]
                0 <= j < values@.len() && made_before(ast, values@[j], t) ==> bound_in(ast.exprs(), uses, values@[j].id())
                    && makes_bound(ast, uses, values@[j].id()),
            StatKind::Return(values) => forall|j: int|
                #![trigger values@[j]]
                0 <= j < values@.len() && made_before(ast, values@[j], t) ==> bound_in(ast.exprs(), uses, values@[j].id())
                    && makes_bound(ast, uses, values@[j].id()),
            StatKind::GenericFor { exprs, body, .. } => (forall|j: int|
                #![trigger exprs@[j]]
                0 <= j < exprs@.len() && made_before(ast, exprs@[j], t) ==> bound_in(ast.exprs(), uses, exprs@[j].id())
                    && makes_bound(ast, uses, exprs@[j].id())) && (0 <= body.id() < ast.blocks().len() && ast.born().blocks[body.id()]
                < t ==> block_bound(ast, uses, body.id())),
            StatKind::Function { target, func } => (made_before(ast, target, t) ==> bound_in(ast.exprs(), uses, target.id())
                && makes_bound(ast, uses, target.id())) && (ast.born().funcs[func.id()] < t ==> func_bound(ast, uses, func.id())),
            StatKind::GlobalFunction { func, .. } => ast.born().funcs[func.id()] < t ==> func_bound(ast, uses, func.id()),
            StatKind::LocalFunction { func, .. } => ast.born().funcs[func.id()] < t ==> func_bound(ast, uses, func.id()),
            StatKind::While { condition, body } => (made_before(ast, condition, t) ==> bound_in(ast.exprs(), uses, condition.id())
                && makes_bound(ast, uses, condition.id())) && (0 <= body.id() < ast.blocks().len() && ast.born().blocks[body.id()] < t
                ==> block_bound(ast, uses, body.id())),
            StatKind::Repeat { body, condition } => (made_before(ast, condition, t) ==> bound_in(ast.exprs(), uses, condition.id())
                && makes_bound(ast, uses, condition.id())) && (0 <= body.id() < ast.blocks().len() && ast.born().blocks[body.id()] < t
                ==> block_bound(ast, uses, body.id())),
            StatKind::NumericFor { start, limit, step, body, .. } => (made_before(ast, start, t) ==> bound_in(ast.exprs(), uses, start.id())
                && makes_bound(ast, uses, start.id())) && (made_before(ast, limit, t) ==> bound_in(ast.exprs(), uses, limit.id())
                && makes_bound(ast, uses, limit.id())) && (step matches Some(st) ==> (made_before(ast, st, t) ==> bound_in(
                ast.exprs(),
                uses,
                st.id(),
            ) && makes_bound(ast, uses, st.id()))) && (0 <= body.id() < ast.blocks().len() && ast.born().blocks[body.id()] < t
                ==> block_bound(ast, uses, body.id())),
            StatKind::If { arms, otherwise } => (forall|i: int|
                #![trigger arms@[i]]
                0 <= i < arms@.len() ==> (made_before(ast, arms@[i].0, t) ==> bound_in(ast.exprs(), uses, arms@[i].0.id()) && makes_bound(
                    ast,
                    uses,
                    arms@[i].0.id(),
                )) && (0 <= arms@[i].1.id() < ast.blocks().len() && ast.born().blocks[arms@[i].1.id()] < t ==> block_bound(
                    ast,
                    uses,
                    arms@[i].1.id(),
                ))) && (otherwise matches Some(b) ==> (0 <= b.id() < ast.blocks().len() && ast.born().blocks[b.id()] < t
                ==> block_bound(ast, uses, b.id()))),
            StatKind::Do(body) => 0 <= body.id() < ast.blocks().len() && ast.born().blocks[body.id()] < t ==> block_bound(
                ast,
                uses,
                body.id(),
            ),
            _ => true,
        }
    } else {
        true
    }
}

/// A part of a statement that was bound stays bound.
proof fn lemma_part_grows(ast: Ast, u1: Seq<Option<Binding>>, u2: Seq<Option<Binding>>, e: ExprId, t: nat)
    requires
        grows(u1, u2),
        made_before(ast, e, t) ==> bound_in(ast.exprs(), u1, e.id()) && makes_bound(ast, u1, e.id()),
    ensures
        made_before(ast, e, t) ==> bound_in(ast.exprs(), u2, e.id()) && makes_bound(ast, u2, e.id()),
    decreases ast.born().exprs[e.id()], 1nat,
{
    if made_before(ast, e, t) {
        lemma_bound_grows(ast.exprs(), u1, u2, e.id());
        lemma_makes_bound_grows(ast, u1, u2, e.id());
    }
}

/// What was bound in the functions an expression makes stays bound.
pub(crate) proof fn lemma_makes_bound_grows(ast: Ast, u1: Seq<Option<Binding>>, u2: Seq<Option<Binding>>, e: int)
    requires
        grows(u1, u2),
        makes_bound(ast, u1, e),
    ensures
        makes_bound(ast, u2, e),
    decreases ast.born().exprs[e], 0nat,
{
    if 0 <= e < ast.exprs().len() {
        let t = ast.born().exprs[e];
        match ast.exprs()[e].kind {
            ExprKind::Function(f) => if 0 <= f.id() < ast.funcs().len() && ast.born().funcs[f.id()] < t {
                lemma_func_bound_grows(ast, u1, u2, f.id());
            },
            ExprKind::Paren(inner) => if made_before(ast, inner, t) {
                lemma_makes_bound_grows(ast, u1, u2, inner.id());
            },
            ExprKind::Index { object, key } => {
                if made_before(ast, object, t) {
                    lemma_makes_bound_grows(ast, u1, u2, object.id());
                }
                if made_before(ast, key, t) {
                    lemma_makes_bound_grows(ast, u1, u2, key.id());
                }
            },
            ExprKind::Call { callee, args } => {
                if made_before(ast, callee, t) {
                    lemma_makes_bound_grows(ast, u1, u2, callee.id());
                }
                assert forall|i: int| #![trigger args@[i]] 0 <= i < args@.len() && made_before(ast, args@[i], t) implies makes_bound(
                    ast,
                    u2,
                    args@[i].id(),
                ) by {
                    lemma_makes_bound_grows(ast, u1, u2, args@[i].id());
                }
            },
            ExprKind::Method { object, args, .. } => {
                if made_before(ast, object, t) {
                    lemma_makes_bound_grows(ast, u1, u2, object.id());
                }
                assert forall|i: int| #![trigger args@[i]] 0 <= i < args@.len() && made_before(ast, args@[i], t) implies makes_bound(
                    ast,
                    u2,
                    args@[i].id(),
                ) by {
                    lemma_makes_bound_grows(ast, u1, u2, args@[i].id());
                }
            },
            ExprKind::Unary { operand, .. } => if made_before(ast, operand, t) {
                lemma_makes_bound_grows(ast, u1, u2, operand.id());
            },
            ExprKind::Binary { left, right, .. } => {
                if made_before(ast, left, t) {
                    lemma_makes_bound_grows(ast, u1, u2, left.id());
                }
                if made_before(ast, right, t) {
                    lemma_makes_bound_grows(ast, u1, u2, right.id());
                }
            },
            ExprKind::Table(fields) => {
                assert forall|i: int| #![trigger fields@[i]] 0 <= i < fields@.len() implies match fields@[i] {
                    Field::Positional(value) => made_before(ast, value, t) ==> makes_bound(ast, u2, value.id()),
                    Field::Named { value, .. } => made_before(ast, value, t) ==> makes_bound(ast, u2, value.id()),
                    Field::Keyed { key, value } => (made_before(ast, key, t) ==> makes_bound(ast, u2, key.id())) && (made_before(
                        ast,
                        value,
                        t,
                    ) ==> makes_bound(ast, u2, value.id())),
                } by {
                    match fields@[i] {
                        Field::Positional(value) => if made_before(ast, value, t) {
                            lemma_makes_bound_grows(ast, u1, u2, value.id());
                        },
                        Field::Named { value, .. } => if made_before(ast, value, t) {
                            lemma_makes_bound_grows(ast, u1, u2, value.id());
                        },
                        Field::Keyed { key, value } => {
                            if made_before(ast, key, t) {
                                lemma_makes_bound_grows(ast, u1, u2, key.id());
                            }
                            if made_before(ast, value, t) {
                                lemma_makes_bound_grows(ast, u1, u2, value.id());
                            }
                        },
                    }
                }
            },
            _ => {},
        }
    }
}

/// What was bound in a function's body stays bound.
pub(crate) proof fn lemma_func_bound_grows(ast: Ast, u1: Seq<Option<Binding>>, u2: Seq<Option<Binding>>, f: int)
    requires
        grows(u1, u2),
        func_bound(ast, u1, f),
    ensures
        func_bound(ast, u2, f),
    decreases ast.born().funcs[f], 0nat,
{
    if 0 <= f < ast.funcs().len() {
        let body = ast.funcs()[f].body.id();
        if 0 <= body < ast.blocks().len() && ast.born().blocks[body] < ast.born().funcs[f] {
            lemma_block_bound_grows(ast, u1, u2, body);
        }
    }
}

/// What was bound in a block stays bound.
pub(crate) proof fn lemma_block_bound_grows(ast: Ast, u1: Seq<Option<Binding>>, u2: Seq<Option<Binding>>, b: int)
    requires
        grows(u1, u2),
        block_bound(ast, u1, b),
    ensures
        block_bound(ast, u2, b),
    decreases ast.born().blocks[b], 0nat,
{
    if 0 <= b < ast.blocks().len() {
        let ids = ast.blocks()[b].stats@;
        assert forall|j: int|
            #![trigger ids[j]]
            0 <= j < ids.len() && 0 <= ids[j].id() < ast.stats().len() && ast.born().stats[ids[j].id()] < ast.born().blocks[b]
                implies stat_bound(ast, u2, ids[j].id()) by {
            lemma_stat_bound_grows(ast, u1, u2, ids[j].id());
        }
    }
}

/// What was bound in a statement stays bound.
pub(crate) proof fn lemma_stat_bound_grows(ast: Ast, u1: Seq<Option<Binding>>, u2: Seq<Option<Binding>>, k: int)
    requires
        grows(u1, u2),
        stat_bound(ast, u1, k),
    ensures
        stat_bound(ast, u2, k),
    decreases ast.born().stats[k], 0nat,
{
    if 0 <= k < ast.stats().len() {
        let t = ast.born().stats[k];
        match ast.stats()[k].kind {
            StatKind::Expr(call) => if made_before(ast, call, t) {
                lemma_part_grows(ast, u1, u2, call, t);
            },
            StatKind::Assign { targets, values } => {
                assert forall|j: int| #![trigger targets@[j]] 0 <= j < targets@.len() && made_before(ast, targets@[j], t) implies bound_in(
                    ast.exprs(),
                    u2,
                    targets@[j].id(),
                ) && makes_bound(ast, u2, targets@[j].id()) by {
                    lemma_part_grows(ast, u1, u2, targets@[j], t);
                }
                assert forall|j: int| #![trigger values@[j]] 0 <= j < values@.len() && made_before(ast, values@[j], t) implies bound_in(
                    ast.exprs(),
                    u2,
                    values@[j].id(),
                ) && makes_bound(ast, u2, values@[j].id()) by {
                    lemma_part_grows(ast, u1, u2, values@[j], t);
                }
            },
            StatKind::Local { values, .. } | StatKind::Global { values, .. } | StatKind::Return(values) => {
                assert forall|j: int| #![trigger values@[j]] 0 <= j < values@.len() && made_before(ast, values@[j], t) implies bound_in(
                    ast.exprs(),
                    u2,
                    values@[j].id(),
                ) && makes_bound(ast, u2, values@[j].id()) by {
                    lemma_part_grows(ast, u1, u2, values@[j], t);
                }
            },
            StatKind::GenericFor { exprs, body, .. } => {
                assert forall|j: int| #![trigger exprs@[j]] 0 <= j < exprs@.len() && made_before(ast, exprs@[j], t) implies bound_in(
                    ast.exprs(),
                    u2,
                    exprs@[j].id(),
                ) && makes_bound(ast, u2, exprs@[j].id()) by {
                    lemma_part_grows(ast, u1, u2, exprs@[j], t);
                }
                if 0 <= body.id() < ast.blocks().len() && ast.born().blocks[body.id()] < t {
                    lemma_block_bound_grows(ast, u1, u2, body.id());
                }
            },
            StatKind::Function { target, func } => {
                if made_before(ast, target, t) {
                    lemma_part_grows(ast, u1, u2, target, t);
                }
                if ast.born().funcs[func.id()] < t {
                    lemma_func_bound_grows(ast, u1, u2, func.id());
                }
            },
            StatKind::GlobalFunction { func, .. } | StatKind::LocalFunction { func, .. } => {
                if ast.born().funcs[func.id()] < t {
                    lemma_func_bound_grows(ast, u1, u2, func.id());
                }
            },
            StatKind::While { condition, body } | StatKind::Repeat { body, condition } => {
                if made_before(ast, condition, t) {
                    lemma_part_grows(ast, u1, u2, condition, t);
                }
                if 0 <= body.id() < ast.blocks().len() && ast.born().blocks[body.id()] < t {
                    lemma_block_bound_grows(ast, u1, u2, body.id());
                }
            },
            StatKind::NumericFor { start, limit, step, body, .. } => {
                if made_before(ast, start, t) {
                    lemma_part_grows(ast, u1, u2, start, t);
                }
                if made_before(ast, limit, t) {
                    lemma_part_grows(ast, u1, u2, limit, t);
                }
                if let Some(st) = step {
                    if made_before(ast, st, t) {
                    lemma_part_grows(ast, u1, u2, st, t);
                }
                }
                if 0 <= body.id() < ast.blocks().len() && ast.born().blocks[body.id()] < t {
                    lemma_block_bound_grows(ast, u1, u2, body.id());
                }
            },
            StatKind::If { arms, otherwise } => {
                assert forall|i: int| #![trigger arms@[i]] 0 <= i < arms@.len() implies (made_before(ast, arms@[i].0, t) ==> bound_in(
                    ast.exprs(),
                    u2,
                    arms@[i].0.id(),
                ) && makes_bound(ast, u2, arms@[i].0.id())) && (0 <= arms@[i].1.id() < ast.blocks().len()
                    && ast.born().blocks[arms@[i].1.id()] < t ==> block_bound(ast, u2, arms@[i].1.id())) by {
                    if made_before(ast, arms@[i].0, t) {
                        lemma_part_grows(ast, u1, u2, arms@[i].0, t);
                    }
                    if 0 <= arms@[i].1.id() < ast.blocks().len() && ast.born().blocks[arms@[i].1.id()] < t {
                        lemma_block_bound_grows(ast, u1, u2, arms@[i].1.id());
                    }
                }
                if let Some(b) = otherwise {
                    if 0 <= b.id() < ast.blocks().len() && ast.born().blocks[b.id()] < t {
                        lemma_block_bound_grows(ast, u1, u2, b.id());
                    }
                }
            },
            StatKind::Do(body) => if 0 <= body.id() < ast.blocks().len() && ast.born().blocks[body.id()] < t {
                lemma_block_bound_grows(ast, u1, u2, body.id());
            },
            _ => {},
        }
    }
}

/// One more declaration is one more entry of the scope.
pub(crate) proof fn lemma_scope_push(before: Seq<Declaration>, after: Seq<Declaration>)
    requires
        after.len() == before.len() + 1,
        forall|i: int| 0 <= i < before.len() ==> #[trigger] after[i] == before[i],
    ensures
        scope_of(after) == scope_of(before).push(scoped(after.last())),
{
    assert(scope_of(after) =~= scope_of(before).push(scoped(after.last())));
}

/// Some statement of block `b` reads or writes a refused name, each statement in the scope
/// the ones before it leave, nested blocks and the bodies of functions included.
pub open spec fn block_refused(ast: Ast, s: Seq<Scoped>, b: int) -> bool
    decreases ast.born().blocks[b],
{
    if 0 <= b < ast.blocks().len() {
        let ids = ast.blocks()[b].stats@;
        exists|j: int|
            #![trigger ids[j]]
            0 <= j < ids.len() && 0 <= ids[j].id() < ast.stats().len() && ast.born().stats[ids[j].id()] < ast.born().blocks[b]
                && stat_refused(ast, scope_after(ast.stats(), ids, s, j), ids[j].id())
    } else {
        false
    }
}

/// Statement `k` reads or writes a refused name where the scope before it is `s`: in what it
/// resolves itself, in the functions it makes, or in the blocks it holds, each in its own
/// scope: a numeric `for`'s body sees its control variable read-only, a generic `for`'s body
/// its names, a `repeat`'s condition the locals of its body, a named function its own name.
pub open spec fn stat_refused(ast: Ast, s: Seq<Scoped>, k: int) -> bool
    decreases ast.born().stats[k],
{
    if 0 <= k < ast.stats().len() {
        let t = ast.born().stats[k];
        ||| refuses_directly(ast.exprs(), s, ast.stats()[k].kind)
        ||| match ast.stats()[k].kind {
            StatKind::Expr(call) => made_before(ast, call, t) && makes_refused(ast, s, call.id()),
            StatKind::Assign { targets, values } => (exists|j: int|
                #![trigger targets@[j]]
                0 <= j < targets@.len() && made_before(ast, targets@[j], t) && makes_refused(ast, s, targets@[j].id())) || (exists|
                j: int,
            |
                #![trigger values@[j]]
                0 <= j < values@.len() && made_before(ast, values@[j], t) && makes_refused(ast, s, values@[j].id())),
            StatKind::Local { values, .. } => exists|j: int|
                #![trigger values@[j]]
                0 <= j < values@.len() && made_before(ast, values@[j], t) && makes_refused(ast, s, values@[j].id()),
            StatKind::Global { values, .. } => exists|j: int|
                #![trigger values@[j]]
                0 <= j < values@.len() && made_before(ast, values@[j], t) && makes_refused(ast, s, values@[j].id()),
            StatKind::Return(values) => exists|j: int|
                #![trigger values@[j]]
                0 <= j < values@.len() && made_before(ast, values@[j], t) && makes_refused(ast, s, values@[j].id()),
            StatKind::GenericFor { exprs, .. } => exists|j: int|
                #![trigger exprs@[j]]
                0 <= j < exprs@.len() && made_before(ast, exprs@[j], t) && makes_refused(ast, s, exprs@[j].id()),
            StatKind::Function { target, .. } => made_before(ast, target, t) && makes_refused(ast, s, target.id()),
            StatKind::While { condition, .. } => made_before(ast, condition, t) && makes_refused(ast, s, condition.id()),
            StatKind::NumericFor { start, limit, step, .. } => (made_before(ast, start, t) && makes_refused(ast, s, start.id())) || (
            made_before(ast, limit, t) && makes_refused(ast, s, limit.id())) || (step matches Some(st) && made_before(ast, st, t)
                && makes_refused(ast, s, st.id())),
            StatKind::If { arms, .. } => exists|i: int|
                #![trigger arms@[i]]
                0 <= i < arms@.len() && made_before(ast, arms@[i].0, t) && makes_refused(ast, s, arms@[i].0.id()),
            StatKind::Repeat { body, condition } => 0 <= body.id() < ast.blocks().len() && made_before(ast, condition, t)
                && makes_refused(
                ast,
                scope_after(ast.stats(), ast.blocks()[body.id()].stats@, s, ast.blocks()[body.id()].stats@.len() as int),
                condition.id(),
            ),
            _ => false,
        }
        ||| match ast.stats()[k].kind {
            StatKind::Do(body) => 0 <= body.id() < ast.blocks().len() && ast.born().blocks[body.id()] < t && block_refused(
                ast,
                s,
                body.id(),
            ),
            StatKind::While { body, .. } => 0 <= body.id() < ast.blocks().len() && ast.born().blocks[body.id()] < t
                && block_refused(ast, s, body.id()),
            StatKind::NumericFor { name, body, .. } => 0 <= body.id() < ast.blocks().len() && ast.born().blocks[body.id()] < t
                && block_refused(ast, s.push(Scoped { name: Some(name@), local: true, global: false, readonly: true }), body.id()),
            StatKind::GenericFor { names, body, .. } => 0 <= body.id() < ast.blocks().len() && ast.born().blocks[body.id()] < t
                && block_refused(ast, s + loop_names(names@), body.id()),
            StatKind::Repeat { body, condition } => 0 <= body.id() < ast.blocks().len() && ast.born().blocks[body.id()] < t && (
            block_refused(ast, s, body.id()) || refused_in(
                ast.exprs(),
                scope_after(ast.stats(), ast.blocks()[body.id()].stats@, s, ast.blocks()[body.id()].stats@.len() as int),
                condition.id(),
            )),
            StatKind::Function { func, .. } => ast.born().funcs[func.id()] < t && func_refused(ast, s, func.id()),
            StatKind::GlobalFunction { name, func } => ast.born().funcs[func.id()] < t && func_refused(
                ast,
                s.push(Scoped { name: Some(name@), local: false, global: true, readonly: false }),
                func.id(),
            ),
            StatKind::LocalFunction { name, func } => ast.born().funcs[func.id()] < t && func_refused(
                ast,
                s.push(own_local(name@, false)),
                func.id(),
            ),
            StatKind::If { arms, otherwise } => (exists|i: int|
                #![trigger arms@[i]]
                0 <= i < arms@.len() && ((i > 0 && refused_in(ast.exprs(), s, arms@[i].0.id())) || (0 <= arms@[i].1.id()
                    < ast.blocks().len() && ast.born().blocks[arms@[i].1.id()] < t && block_refused(ast, s, arms@[i].1.id()))))
                || (otherwise matches Some(b) && 0 <= b.id() < ast.blocks().len() && ast.born().blocks[b.id()] < t
                && block_refused(ast, s, b.id())),
            _ => false,
        }
    } else {
        false
    }
}

proof fn lemma_declares_scope(before: Seq<Declaration>, after: Seq<Declaration>, kind: StatKind)
    requires
        declares(before, after, kind),
    ensures
        scope_of(after) == scope_of(before) + introduced(kind),
{
    let n = before.len() as int;
    assert forall|i: int| 0 <= i < after.len() implies #[trigger] scope_of(after)[i] == (scope_of(before) + introduced(kind))[i] by {
        if i < n {
            assert(after[i] == before[i]);
        } else {
            match kind {
                StatKind::Local { names, .. } => {
                    assert(local_named(after[n + (i - n)], names@[i - n].name@, names@[i - n].attribute is Some));
                },
                StatKind::Global { names, .. } => {
                    assert(global_named(after[n + (i - n)], Some(names@[i - n].name@), names@[i - n].attribute is Some));
                },
                _ => {},
            }
        }
    }
    assert(scope_of(after) =~= scope_of(before) + introduced(kind));
}

impl<'a, 'src> Resolver<'a, 'src> {
    /// A block's statements without a scope of their own, so that `repeat` can hold its
    /// scope open past the last one.
    #[verifier::spinoff_prover]
    #[verifier::rlimit(80)]
    pub(crate) fn stats(&mut self, block: BlockId, tail_labels: bool) -> (r: Result<(), Error>)
        requires
            old(self).wf(),
            block.id() < old(self).ast.blocks().len(),
        ensures
            r is Ok ==> final(self).wf() && final(self).same_frames(*old(self)),
            block_refused(*old(self).ast, scope_of(old(self).decls()), block.id()) ==> r is Err,
            r matches Err(e) ==> label_error(e.kind) || block_refused(*old(self).ast, scope_of(old(self).decls()), block.id()),
            r is Ok ==> block_bound(*old(self).ast, final(self).bindings.uses(), block.id()),
            r is Ok ==> scope_of(final(self).declarations@) == scope_after(
                old(self).ast.stats(),
                old(self).ast.blocks()[block.id()].stats@,
                scope_of(old(self).decls()),
                old(self).ast.blocks()[block.id()].stats@.len() as int,
            ),
        decreases old(self).ast.born().blocks[block.id()], 0nat,
    {
        let ast = self.ast;
        let stats = &ast.block(block).stats;
        let ghost t = ast.born().blocks[block.id()];
        let ghost s0 = scope_of(self.decls());
        let mut index: usize = 0;
        while index < stats.len()
            invariant
                self.wf(),
                self.same_frames(*old(self)),
                self.ast == ast,
                ast == old(self).ast,
                *stats == ast.blocks()[block.id()].stats,
                block.id() < ast.blocks().len(),
                t == ast.born().blocks[block.id()],
                index <= stats@.len(),
                s0 == scope_of(old(self).decls()),
                scope_of(self.declarations@) == scope_after(ast.stats(), stats@, s0, index as int),
                forall|j: int|
                    #![trigger stats@[j]]
                    0 <= j < index ==> !stat_refused(*ast, scope_after(ast.stats(), stats@, s0, j), stats@[j].id()),
                forall|j: int| #![trigger stats@[j]] 0 <= j < index ==> stat_bound(*ast, self.bindings.uses(), stats@[j].id()),
            decreases stats@.len() - index,
        {
            proof {
                assert(stats@[index as int].id() < ast.stats().len());
                assert(ast.born().stats[stats@[index as int].id()] < t);
            }
            if !matches!(ast.stat(stats[index]).kind, StatKind::Label(_)) {
                let ghost sc = scope_of(self.declarations@);
                let ghost u0 = self.bindings.uses();
                self.stat(stats[index])?;
                proof {
                    let u1 = self.bindings.uses();
                    assert forall|j: int| #![trigger stats@[j]] 0 <= j < index + 1 implies stat_bound(*ast, u1, stats@[j].id()) by {
                        if j < index {
                            lemma_stat_bound_grows(*ast, u0, u1, stats@[j].id());
                        }
                    }
                    assert(scope_after(ast.stats(), stats@, s0, index + 1) == scope_after(ast.stats(), stats@, s0, index as int)
                        + introduced(ast.stats()[stats@[index as int].id()].kind));
                }
                index += 1;
            } else {
                let ghost at_batch = self.declarations@;
                let ghost at_batch_uses = self.bindings.uses();
                proof {
                    assert(introduced(ast.stats()[stats@[index as int].id()].kind) =~= Seq::<Scoped>::empty());
                    assert(scope_after(ast.stats(), stats@, s0, index + 1) =~= scope_after(ast.stats(), stats@, s0, index as int));
                }
                // Labels written back to back are registered last one first, which is what
                // decides the line a collision between them names.
                let count = stats.len();
                let mut last = index;
                while last + 1 < count && matches!(ast.stat(stats[last + 1]).kind, StatKind::Label(_))
                    invariant
                        count == stats@.len(),
                        index <= last < stats@.len(),
                        *stats == ast.blocks()[block.id()].stats,
                        block.id() < ast.blocks().len(),
                        ast.wf(),
                        forall|j: int| #![trigger stats@[j]] index <= j <= last ==> ast.stats()[stats@[j].id()].kind is Label,
                        scope_after(ast.stats(), stats@, s0, last + 1) == scope_after(ast.stats(), stats@, s0, index as int),
                    decreases stats@.len() - last,
                {
                    last += 1;
                    proof {
                        assert(stats@[last as int].id() < ast.stats().len());
                        assert(introduced(ast.stats()[stats@[last as int].id()].kind) =~= Seq::<Scoped>::empty());
                        assert(scope_after(ast.stats(), stats@, s0, last + 1) =~= scope_after(ast.stats(), stats@, s0, last as int));
                    }
                }
                let report_at = ast.stat(stats[last]).span.end;
                let tail = tail_labels && last + 1 == stats.len();
                let mut k = last + 1;
                while k > index
                    invariant
                        self.wf(),
                        self.same_frames(*old(self)),
                        self.ast == ast,
                        ast == old(self).ast,
                        *stats == ast.blocks()[block.id()].stats,
                        block.id() < ast.blocks().len(),
                        index <= k <= last + 1,
                        last < stats@.len(),
                        self.declarations@ == at_batch,
                        self.bindings.uses() == at_batch_uses,
                    decreases k,
                {
                    k -= 1;
                    let id = stats[k];
                    let stat = ast.stat(id);
                    if let StatKind::Label(name) = stat.kind {
                        self.declare_label(name, stat.span.start, report_at, tail, id)?;
                    }
                }
                proof {
                    assert forall|j: int| #![trigger stats@[j]] 0 <= j < last + 1 implies !stat_refused(
                        *ast,
                        scope_after(ast.stats(), stats@, s0, j),
                        stats@[j].id(),
                    ) by {
                        if j >= index {
                            assert(ast.stats()[stats@[j].id()].kind is Label);
                        }
                    }
                    assert forall|j: int| #![trigger stats@[j]] 0 <= j < last + 1 implies stat_bound(*ast, self.bindings.uses(), stats@[j].id()) by {
                        if j >= index {
                            assert(ast.stats()[stats@[j].id()].kind is Label);
                        }
                    }
                }
                index = last + 1;
            }
        }
        proof {
            assert(!block_refused(*ast, s0, block.id()));
            assert(block_bound(*ast, self.bindings.uses(), block.id()));
        }
        Ok(())
    }

    /// A block with a scope of its own.
    #[verifier::spinoff_prover]
    #[verifier::rlimit(40)]
    pub(crate) fn block(&mut self, id: BlockId) -> (r: Result<(), Error>)
        requires
            old(self).wf(),
            id.id() < old(self).ast.blocks().len(),
        ensures
            r is Ok ==> final(self).wf() && final(self).same_frames(*old(self)),
            r is Ok ==> final(self).declarations@ == old(self).declarations@,
            block_refused(*old(self).ast, scope_of(old(self).decls()), id.id()) ==> r is Err,
            r matches Err(e) ==> label_error(e.kind) || block_refused(*old(self).ast, scope_of(old(self).decls()), id.id()),
            r is Ok ==> block_bound(*old(self).ast, final(self).bindings.uses(), id.id()),
        decreases old(self).ast.born().blocks[id.id()], 1nat,
    {
        let ast = self.ast;
        self.enter_block();
        let ghost entered = *self;
        self.stats(id, true)?;
        let ghost mid = *self;
        self.leave_block(ast.block(id).span.end)?;
        proof {
            assert(mid.blocks@.last().declarations == entered.blocks@.last().declarations);
            assert forall|i: int| 0 <= i < old(self).declarations@.len() implies #[trigger] self.declarations@[i]
                == old(self).declarations@[i] by {
                assert(mid.declarations@[i] == entered.declarations@[i]);
            }
            assert(self.declarations@ =~= old(self).declarations@);
        }
        Ok(())
    }

    /// One statement: the expressions it resolves where the declarations are those before it
    /// are refused as their reads are, and what it declares is visible after it.
    #[verifier::spinoff_prover]
    #[verifier::rlimit(100)]
    pub(crate) fn stat(&mut self, id: StatId) -> (r: Result<(), Error>)
        requires
            old(self).wf(),
            id.id() < old(self).ast.stats().len(),
        ensures
            r is Ok ==> final(self).wf() && final(self).same_frames(*old(self)),
            refuses_directly(old(self).ast.exprs(), scope_of(old(self).decls()), old(self).ast.stats()[id.id()].kind) ==> r is Err,
            stat_refused(*old(self).ast, scope_of(old(self).decls()), id.id()) ==> r is Err,
            r matches Err(e) ==> label_error(e.kind) || stat_refused(*old(self).ast, scope_of(old(self).decls()), id.id()),
            r is Ok ==> declares(old(self).declarations@, final(self).declarations@, old(self).ast.stats()[id.id()].kind),
            r is Ok ==> scope_of(final(self).declarations@) == scope_of(old(self).declarations@) + introduced(old(self).ast.stats()[id.id()].kind),
            r is Ok ==> stat_bound(*old(self).ast, final(self).bindings.uses(), id.id()),
        decreases old(self).ast.born().stats[id.id()], 2nat,
    {
        let ast = self.ast;
        let stat = ast.stat(id);
        let ghost t = ast.born().stats[id.id()];
        let ghost ex = ast.exprs();
        let ghost d = scope_of(self.decls());
        let ghost d0 = self.decls();
        proof {
            assert(crate::ast::stat_kind_before(stat.kind, ast.born(), t));
            assert(crate::ast::stat_kind_closed(
                stat.kind,
                ast.exprs().len() as int,
                ast.blocks().len() as int,
                ast.funcs().len() as int,
            ));
        }
        match &stat.kind {
            StatKind::Expr(expr) => {
                self.expr(*expr)?;
                assert(!refuses_directly(ex, d, stat.kind));
                assert(self.same_frames(*old(self)));
            },
            StatKind::Assign { .. } => return self.assign_stat(id),
            StatKind::Local { .. } => return self.local_stat(id),
            StatKind::GlobalAll { attribute } => {
                self.declare_global(None, attribute.is_some());
                assert(self.same_frames(*old(self)));
            },
            StatKind::Global { .. } => return self.global_stat(id),
            StatKind::Function { target, func } => {
                self.target(*target)?;
                let ghost u0 = self.bindings.uses();
                proof {
                    if let ExprKind::Name(n) = ex[target.id()].kind {
                        lemma_seen(d0, n@);
                        lemma_seen(d0, env_name());
                    }
                }
                assert(!refuses_directly(ex, d, stat.kind));
                self.func(*func)?;
                proof {
                    lemma_bound_grows(ex, u0, self.bindings.uses(), target.id());
                    lemma_makes_bound_grows(*ast, u0, self.bindings.uses(), target.id());
                }
                assert(self.same_frames(*old(self)));
            },
            StatKind::GlobalFunction { name, func } => {
                // A declaration, not an assignment: it shadows a `global<const> *`, and it is
                // one of the declarations that turn off the implicit `global *`.
                self.declare_global(Some(*name), false);
                let ghost declared = self.declarations@;
                proof {
                    lemma_scope_push(d0, declared);
                    assert(scope_of(declared) == d.push(Scoped { name: Some(name@), local: false, global: true, readonly: false }));
                }
                self.func(*func)?;
                assert(self.declarations@ == declared);
                assert(self.same_frames(*old(self)));
            },
            StatKind::LocalFunction { name, func } => {
                // Declared before the body, so that the function can call itself.
                self.declare_local(*name, false);
                let ghost declared = self.declarations@;
                proof {
                    lemma_scope_push(d0, declared);
                    assert(scope_of(declared) == d.push(own_local(name@, false)));
                }
                self.func(*func)?;
                assert(self.declarations@ == declared);
                assert(self.same_frames(*old(self)));
            },
            StatKind::While { condition, body } => {
                self.expr(*condition)?;
                assert(!refuses_directly(ex, d, stat.kind));
                let ghost u0 = self.bindings.uses();
                self.block(*body)?;
                proof {
                    lemma_bound_grows(ex, u0, self.bindings.uses(), condition.id());
                    lemma_makes_bound_grows(*ast, u0, self.bindings.uses(), condition.id());
                }
                assert(!stat_refused(*ast, d, id.id()));
                assert(self.same_frames(*old(self)));
            },
            StatKind::Repeat { .. } => return self.repeat_stat(id),
            StatKind::NumericFor { .. } => return self.numeric_for(id),
            StatKind::GenericFor { .. } => return self.generic_for(id),
            StatKind::If { .. } => return self.if_stat(id),
            StatKind::Do(body) => self.block(*body)?,
            StatKind::Return(values) => self.exprs(values, Ghost(t))?,
            StatKind::Goto(name) => {
                let goto = Goto { name: *name, at: stat.span.start, declarations: self.declarations.len(), stat: id };
                self.push_goto(goto);
                assert(self.same_frames(*old(self)));
            },
            StatKind::Break => {},
            // Labels are registered by `stats`, which never hands one here.
            StatKind::Label(_) => {},
        }
        proof {
            lemma_declares_scope(old(self).declarations@, self.declarations@, stat.kind);
        }
        Ok(())
    }

    /// The statement `stat` hands on for this kind.
    #[verifier::spinoff_prover]
    #[verifier::rlimit(100)]
    fn assign_stat(&mut self, id: StatId) -> (r: Result<(), Error>)
        requires
            old(self).wf(),
            id.id() < old(self).ast.stats().len(),
            old(self).ast.stats()[id.id()].kind is Assign,
        ensures
            r is Ok ==> final(self).wf() && final(self).same_frames(*old(self)),
            refuses_directly(old(self).ast.exprs(), scope_of(old(self).decls()), old(self).ast.stats()[id.id()].kind) ==> r is Err,
            stat_refused(*old(self).ast, scope_of(old(self).decls()), id.id()) ==> r is Err,
            r matches Err(e) ==> label_error(e.kind) || stat_refused(*old(self).ast, scope_of(old(self).decls()), id.id()),
            r is Ok ==> declares(old(self).declarations@, final(self).declarations@, old(self).ast.stats()[id.id()].kind),
            r is Ok ==> scope_of(final(self).declarations@) == scope_of(old(self).declarations@) + introduced(old(self).ast.stats()[id.id()].kind),
            r is Ok ==> stat_bound(*old(self).ast, final(self).bindings.uses(), id.id()),
        decreases old(self).ast.born().stats[id.id()], 1nat,
    {
        let ast = self.ast;
        let stat = ast.stat(id);
        let ghost t = ast.born().stats[id.id()];
        let ghost ex = ast.exprs();
        let ghost d = scope_of(self.decls());
        let ghost d0 = self.decls();
        proof {
            assert(crate::ast::stat_kind_before(stat.kind, ast.born(), t));
            assert(crate::ast::stat_kind_closed(
                stat.kind,
                ast.exprs().len() as int,
                ast.blocks().len() as int,
                ast.funcs().len() as int,
            ));
        }
        if let StatKind::Assign { targets, values } = &stat.kind {
                let mut i: usize = 0;
                while i < targets.len()
                    invariant
                        self.wf(),
                        self.same_frames(*old(self)),
                        self.ast == ast,
                        ast == old(self).ast,
                        ex == ast.exprs(),
                        self.declarations@ == d0,
                        d0 == old(self).decls(),
                        d == scope_of(d0),
                        i <= targets@.len(),
                        forall|j: int| 0 <= j < targets@.len() ==> #[trigger] targets@[j].id() < ast.exprs().len(),
                        forall|j: int| 0 <= j < targets@.len() ==> ast.born().exprs[#[trigger] targets@[j].id()] < t,
                        t == old(self).ast.born().stats[id.id()],
                        forall|j: int| 0 <= j < i ==> !target_refused(ex, d, #[trigger] targets@[j].id()),
                        forall|j: int| 0 <= j < i ==> !makes_refused(*ast, d, #[trigger] targets@[j].id()),
                        id.id() < ast.stats().len(),
                        *stat == ast.stats()[id.id()],
                        stat.kind == (StatKind::Assign { targets: *targets, values: *values }),
                        forall|j: int| 0 <= j < i ==> bound_in(ex, self.bindings.uses(), #[trigger] targets@[j].id()) && makes_bound(*ast, self.bindings.uses(), targets@[j].id()),
                    decreases targets@.len() - i,
                {
                    let ghost u0 = self.bindings.uses();
                    let step = self.target(targets[i]);
                    if step.is_err() {
                        proof {
                            let k = targets@[i as int];
                            assert(made_before(*ast, k, t));
                            assert(target_refused(ex, d, k.id()) ==> refuses_directly(ex, d, stat.kind));
                            assert(makes_refused(*ast, d, k.id()) ==> stat_refused(*ast, d, id.id()));
                        }
                        return step;
                    }
                    proof {
                        let k = targets@[i as int].id();
                        assert(!target_refused(ex, d, k)) by {
                            if let ExprKind::Name(n) = ex[k].kind {
                                lemma_seen(d0, n@);
                                lemma_seen(d0, env_name());
                                assert(!refused_in(ex, d, k));
                            }
                        }
                        let u1 = self.bindings.uses();
                        assert forall|j: int| 0 <= j < i + 1 implies bound_in(ex, u1, #[trigger] targets@[j].id()) && makes_bound(*ast, u1, targets@[j].id()) by {
                            if j < i {
                                lemma_bound_grows(ex, u0, u1, targets@[j].id());
                                lemma_makes_bound_grows(*ast, u0, u1, targets@[j].id());
                            }
                        }
                    }
                    i += 1;
                }
                let ghost u0 = self.bindings.uses();
                self.exprs(values, Ghost(t))?;
                proof {
                    let u1 = self.bindings.uses();
                    assert forall|j: int| 0 <= j < targets@.len() implies bound_in(ex, u1, #[trigger] targets@[j].id()) && makes_bound(*ast, u1, targets@[j].id()) by {
                        lemma_bound_grows(ex, u0, u1, targets@[j].id());
                        lemma_makes_bound_grows(*ast, u0, u1, targets@[j].id());
                    }
                    assert(stat_bound(*ast, u1, id.id()));
                }
                assert(self.same_frames(*old(self)));
                assert(!refuses_directly(ex, d, stat.kind));
        }
        proof {
            lemma_declares_scope(old(self).declarations@, self.declarations@, stat.kind);
        }
        Ok(())
    }

    /// The statement `stat` hands on for this kind.
    #[verifier::spinoff_prover]
    #[verifier::rlimit(100)]
    fn local_stat(&mut self, id: StatId) -> (r: Result<(), Error>)
        requires
            old(self).wf(),
            id.id() < old(self).ast.stats().len(),
            old(self).ast.stats()[id.id()].kind is Local,
        ensures
            r is Ok ==> final(self).wf() && final(self).same_frames(*old(self)),
            refuses_directly(old(self).ast.exprs(), scope_of(old(self).decls()), old(self).ast.stats()[id.id()].kind) ==> r is Err,
            stat_refused(*old(self).ast, scope_of(old(self).decls()), id.id()) ==> r is Err,
            r matches Err(e) ==> label_error(e.kind) || stat_refused(*old(self).ast, scope_of(old(self).decls()), id.id()),
            r is Ok ==> declares(old(self).declarations@, final(self).declarations@, old(self).ast.stats()[id.id()].kind),
            r is Ok ==> scope_of(final(self).declarations@) == scope_of(old(self).declarations@) + introduced(old(self).ast.stats()[id.id()].kind),
            r is Ok ==> stat_bound(*old(self).ast, final(self).bindings.uses(), id.id()),
        decreases old(self).ast.born().stats[id.id()], 1nat,
    {
        let ast = self.ast;
        let stat = ast.stat(id);
        let ghost t = ast.born().stats[id.id()];
        let ghost ex = ast.exprs();
        let ghost d = scope_of(self.decls());
        let ghost d0 = self.decls();
        proof {
            assert(crate::ast::stat_kind_before(stat.kind, ast.born(), t));
            assert(crate::ast::stat_kind_closed(
                stat.kind,
                ast.exprs().len() as int,
                ast.blocks().len() as int,
                ast.funcs().len() as int,
            ));
        }
        if let StatKind::Local { names, values } = &stat.kind {
                // An initializer is read before its own declaration exists: the `a` of
                // `local a = a` is the outer one.
                self.exprs(values, Ghost(t))?;
                assert(!refuses_directly(ex, d, stat.kind));
                let ghost u_values = self.bindings.uses();
                assert(stat_bound(*ast, u_values, id.id()));
                let mut i: usize = 0;
                while i < names.len()
                    invariant
                        self.wf(),
                        self.same_frames(*old(self)),
                        self.ast == ast,
                        i <= names@.len(),
                        self.declarations@.len() == d0.len() + i,
                        d0 == old(self).decls(),
                        self.bindings.uses() == u_values,
                        forall|j: int| 0 <= j < i ==> local_named(#[trigger] self.declarations@[d0.len() + j], names@[j].name@, names@[j].attribute is Some),
                    decreases names@.len() - i,
                {
                    let ghost before = self.declarations@;
                    self.declare_local(names[i].name, names[i].attribute.is_some());
                    proof {
                        assert forall|j: int| 0 <= j < i + 1 implies local_named(#[trigger] self.declarations@[d0.len() + j], names@[j].name@, names@[j].attribute is Some) by {
                            if j < i {
                                assert(self.declarations@[d0.len() + j] == before[d0.len() + j]);
                            }
                        }
                    }
                    i += 1;
                }
                assert(self.same_frames(*old(self)));
        }
        proof {
            lemma_declares_scope(old(self).declarations@, self.declarations@, stat.kind);
        }
        Ok(())
    }

    /// The statement `stat` hands on for this kind.
    #[verifier::spinoff_prover]
    #[verifier::rlimit(100)]
    fn global_stat(&mut self, id: StatId) -> (r: Result<(), Error>)
        requires
            old(self).wf(),
            id.id() < old(self).ast.stats().len(),
            old(self).ast.stats()[id.id()].kind is Global,
        ensures
            r is Ok ==> final(self).wf() && final(self).same_frames(*old(self)),
            refuses_directly(old(self).ast.exprs(), scope_of(old(self).decls()), old(self).ast.stats()[id.id()].kind) ==> r is Err,
            stat_refused(*old(self).ast, scope_of(old(self).decls()), id.id()) ==> r is Err,
            r matches Err(e) ==> label_error(e.kind) || stat_refused(*old(self).ast, scope_of(old(self).decls()), id.id()),
            r is Ok ==> declares(old(self).declarations@, final(self).declarations@, old(self).ast.stats()[id.id()].kind),
            r is Ok ==> scope_of(final(self).declarations@) == scope_of(old(self).declarations@) + introduced(old(self).ast.stats()[id.id()].kind),
            r is Ok ==> stat_bound(*old(self).ast, final(self).bindings.uses(), id.id()),
        decreases old(self).ast.born().stats[id.id()], 1nat,
    {
        let ast = self.ast;
        let stat = ast.stat(id);
        let ghost t = ast.born().stats[id.id()];
        let ghost ex = ast.exprs();
        let ghost d = scope_of(self.decls());
        let ghost d0 = self.decls();
        proof {
            assert(crate::ast::stat_kind_before(stat.kind, ast.born(), t));
            assert(crate::ast::stat_kind_closed(
                stat.kind,
                ast.exprs().len() as int,
                ast.blocks().len() as int,
                ast.funcs().len() as int,
            ));
        }
        if let StatKind::Global { names, values } = &stat.kind {
                self.exprs(values, Ghost(t))?;
                assert(!refuses_directly(ex, d, stat.kind));
                let ghost u_values = self.bindings.uses();
                assert(stat_bound(*ast, u_values, id.id()));
                let mut i: usize = 0;
                while i < names.len()
                    invariant
                        self.wf(),
                        self.same_frames(*old(self)),
                        self.ast == ast,
                        i <= names@.len(),
                        self.declarations@.len() == d0.len() + i,
                        d0 == old(self).decls(),
                        self.bindings.uses() == u_values,
                        forall|j: int| 0 <= j < i ==> global_named(#[trigger] self.declarations@[d0.len() + j], Some(names@[j].name@), names@[j].attribute is Some),
                    decreases names@.len() - i,
                {
                    let ghost before = self.declarations@;
                    self.declare_global(Some(names[i].name), names[i].attribute.is_some());
                    proof {
                        assert forall|j: int| 0 <= j < i + 1 implies global_named(#[trigger] self.declarations@[d0.len() + j], Some(names@[j].name@), names@[j].attribute is Some) by {
                            if j < i {
                                assert(self.declarations@[d0.len() + j] == before[d0.len() + j]);
                            }
                        }
                    }
                    i += 1;
                }
        }
        proof {
            lemma_declares_scope(old(self).declarations@, self.declarations@, stat.kind);
        }
        Ok(())
    }

    /// The statement `stat` hands on for this kind.
    #[verifier::spinoff_prover]
    #[verifier::rlimit(100)]
    fn numeric_for(&mut self, id: StatId) -> (r: Result<(), Error>)
        requires
            old(self).wf(),
            id.id() < old(self).ast.stats().len(),
            old(self).ast.stats()[id.id()].kind is NumericFor,
        ensures
            r is Ok ==> final(self).wf() && final(self).same_frames(*old(self)),
            refuses_directly(old(self).ast.exprs(), scope_of(old(self).decls()), old(self).ast.stats()[id.id()].kind) ==> r is Err,
            stat_refused(*old(self).ast, scope_of(old(self).decls()), id.id()) ==> r is Err,
            r matches Err(e) ==> label_error(e.kind) || stat_refused(*old(self).ast, scope_of(old(self).decls()), id.id()),
            r is Ok ==> declares(old(self).declarations@, final(self).declarations@, old(self).ast.stats()[id.id()].kind),
            r is Ok ==> scope_of(final(self).declarations@) == scope_of(old(self).declarations@) + introduced(old(self).ast.stats()[id.id()].kind),
            r is Ok ==> stat_bound(*old(self).ast, final(self).bindings.uses(), id.id()),
        decreases old(self).ast.born().stats[id.id()], 1nat,
    {
        let ast = self.ast;
        let stat = ast.stat(id);
        let ghost t = ast.born().stats[id.id()];
        let ghost ex = ast.exprs();
        let ghost d = scope_of(self.decls());
        let ghost d0 = self.decls();
        proof {
            assert(crate::ast::stat_kind_before(stat.kind, ast.born(), t));
            assert(crate::ast::stat_kind_closed(
                stat.kind,
                ast.exprs().len() as int,
                ast.blocks().len() as int,
                ast.funcs().len() as int,
            ));
        }
        if let StatKind::NumericFor { name, start, limit, step, body, .. } = &stat.kind {
                self.expr(*start)?;
                let ghost u0 = self.bindings.uses();
                self.expr(*limit)?;
                proof {
                    lemma_bound_grows(ex, u0, self.bindings.uses(), start.id());
                    lemma_makes_bound_grows(*ast, u0, self.bindings.uses(), start.id());
                }
                if let Some(step) = step {
                    let ghost u1 = self.bindings.uses();
                    self.expr(*step)?;
                    proof {
                        lemma_bound_grows(ex, u1, self.bindings.uses(), start.id());
                        lemma_makes_bound_grows(*ast, u1, self.bindings.uses(), start.id());
                        lemma_bound_grows(ex, u1, self.bindings.uses(), limit.id());
                        lemma_makes_bound_grows(*ast, u1, self.bindings.uses(), limit.id());
                    }
                }
                let ghost u2 = self.bindings.uses();
                assert(!refuses_directly(ex, d, stat.kind));
                self.enter_block();
                let ghost entered = *self;
                self.declare_local(*name, true);
                proof {
                    assert(scope_of(self.declarations@) =~= d.push(Scoped { name: Some(name@), local: true, global: false, readonly: true }));
                }
                self.block(*body)?;
                proof {
                    let u3 = self.bindings.uses();
                    lemma_bound_grows(ex, u2, u3, start.id());
                    lemma_makes_bound_grows(*ast, u2, u3, start.id());
                    lemma_bound_grows(ex, u2, u3, limit.id());
                    lemma_makes_bound_grows(*ast, u2, u3, limit.id());
                    if let Some(st) = step {
                        lemma_bound_grows(ex, u2, u3, st.id());
                        lemma_makes_bound_grows(*ast, u2, u3, st.id());
                    }
                }
                let ghost mid = *self;
                self.leave_block(ast.block(*body).span.end)?;
                proof {
                    assert(mid.blocks@.last().declarations == entered.blocks@.last().declarations);
                    assert forall|i: int| 0 <= i < old(self).declarations@.len() implies #[trigger] self.declarations@[i]
                        == old(self).declarations@[i] by {
                        assert(mid.declarations@[i] == entered.declarations@[i]);
                    }
                    assert(self.declarations@ =~= old(self).declarations@);
                }
                assert(self.wf());
                assert(self.same_frames(*old(self)));
        }
        proof {
            lemma_declares_scope(old(self).declarations@, self.declarations@, stat.kind);
        }
        Ok(())
    }

    /// The statement `stat` hands on for this kind.
    #[verifier::spinoff_prover]
    #[verifier::rlimit(100)]
    fn generic_for(&mut self, id: StatId) -> (r: Result<(), Error>)
        requires
            old(self).wf(),
            id.id() < old(self).ast.stats().len(),
            old(self).ast.stats()[id.id()].kind is GenericFor,
        ensures
            r is Ok ==> final(self).wf() && final(self).same_frames(*old(self)),
            refuses_directly(old(self).ast.exprs(), scope_of(old(self).decls()), old(self).ast.stats()[id.id()].kind) ==> r is Err,
            stat_refused(*old(self).ast, scope_of(old(self).decls()), id.id()) ==> r is Err,
            r matches Err(e) ==> label_error(e.kind) || stat_refused(*old(self).ast, scope_of(old(self).decls()), id.id()),
            r is Ok ==> declares(old(self).declarations@, final(self).declarations@, old(self).ast.stats()[id.id()].kind),
            r is Ok ==> scope_of(final(self).declarations@) == scope_of(old(self).declarations@) + introduced(old(self).ast.stats()[id.id()].kind),
            r is Ok ==> stat_bound(*old(self).ast, final(self).bindings.uses(), id.id()),
        decreases old(self).ast.born().stats[id.id()], 1nat,
    {
        let ast = self.ast;
        let stat = ast.stat(id);
        let ghost t = ast.born().stats[id.id()];
        let ghost ex = ast.exprs();
        let ghost d = scope_of(self.decls());
        let ghost d0 = self.decls();
        proof {
            assert(crate::ast::stat_kind_before(stat.kind, ast.born(), t));
            assert(crate::ast::stat_kind_closed(
                stat.kind,
                ast.exprs().len() as int,
                ast.blocks().len() as int,
                ast.funcs().len() as int,
            ));
        }
        if let StatKind::GenericFor { names, exprs, body } = &stat.kind {
                self.exprs(exprs, Ghost(t))?;
                assert(!refuses_directly(ex, d, stat.kind));
                let ghost u0 = self.bindings.uses();
                self.enter_block();
                let ghost entered = *self;
                let mut i: usize = 0;
                while i < names.len()
                    invariant
                        self.wf(),
                        self.same_frames(entered),
                        self.ast == ast,
                        i <= names@.len(),
                        entered.declarations@ == d0,
                        self.bindings.uses() == u0,
                        self.declarations@.len() == d0.len() + i,
                        forall|j: int| 0 <= j < i ==> local_named(#[trigger] self.declarations@[d0.len() + j], names@[j]@, j == 0),
                    decreases names@.len() - i,
                {
                    let ghost before = self.declarations@;
                    // Only the control variable is read-only.
                    self.declare_local(names[i], i == 0);
                    proof {
                        assert forall|j: int| 0 <= j < i + 1 implies local_named(#[trigger] self.declarations@[d0.len() + j], names@[j]@, j == 0) by {
                            if j < i {
                                assert(self.declarations@[d0.len() + j] == before[d0.len() + j]);
                            }
                        }
                    }
                    i += 1;
                }
                proof {
                    assert forall|j: int| 0 <= j < self.declarations@.len() implies #[trigger] scope_of(self.declarations@)[j] == (d + loop_names(names@))[j] by {
                        if j < d0.len() {
                            assert(self.declarations@[j] == d0[j]);
                        } else {
                            assert(local_named(self.declarations@[d0.len() + (j - d0.len())], names@[j - d0.len()]@, j - d0.len() == 0));
                        }
                    }
                    assert(scope_of(self.declarations@) =~= d + loop_names(names@));
                }
                self.block(*body)?;
                proof {
                    let u1 = self.bindings.uses();
                    assert forall|j: int| 0 <= j < exprs@.len() implies bound_in(ex, u1, #[trigger] exprs@[j].id()) && makes_bound(*ast, u1, exprs@[j].id()) by {
                        lemma_bound_grows(ex, u0, u1, exprs@[j].id());
                        lemma_makes_bound_grows(*ast, u0, u1, exprs@[j].id());
                    }
                }
                let ghost mid = *self;
                self.leave_block(ast.block(*body).span.end)?;
                proof {
                    assert(mid.blocks@.last().declarations == entered.blocks@.last().declarations);
                    assert forall|i: int| 0 <= i < old(self).declarations@.len() implies #[trigger] self.declarations@[i]
                        == old(self).declarations@[i] by {
                        assert(mid.declarations@[i] == entered.declarations@[i]);
                    }
                    assert(self.declarations@ =~= old(self).declarations@);
                }
                assert(self.wf());
                assert(self.same_frames(*old(self)));
        }
        proof {
            lemma_declares_scope(old(self).declarations@, self.declarations@, stat.kind);
        }
        Ok(())
    }

    /// The statement `stat` hands on for this kind.
    #[verifier::spinoff_prover]
    #[verifier::rlimit(100)]
    fn if_stat(&mut self, id: StatId) -> (r: Result<(), Error>)
        requires
            old(self).wf(),
            id.id() < old(self).ast.stats().len(),
            old(self).ast.stats()[id.id()].kind is If,
        ensures
            r is Ok ==> final(self).wf() && final(self).same_frames(*old(self)),
            refuses_directly(old(self).ast.exprs(), scope_of(old(self).decls()), old(self).ast.stats()[id.id()].kind) ==> r is Err,
            stat_refused(*old(self).ast, scope_of(old(self).decls()), id.id()) ==> r is Err,
            r matches Err(e) ==> label_error(e.kind) || stat_refused(*old(self).ast, scope_of(old(self).decls()), id.id()),
            r is Ok ==> declares(old(self).declarations@, final(self).declarations@, old(self).ast.stats()[id.id()].kind),
            r is Ok ==> scope_of(final(self).declarations@) == scope_of(old(self).declarations@) + introduced(old(self).ast.stats()[id.id()].kind),
            r is Ok ==> stat_bound(*old(self).ast, final(self).bindings.uses(), id.id()),
        decreases old(self).ast.born().stats[id.id()], 1nat,
    {
        let ast = self.ast;
        let stat = ast.stat(id);
        let ghost t = ast.born().stats[id.id()];
        let ghost ex = ast.exprs();
        let ghost d = scope_of(self.decls());
        let ghost d0 = self.decls();
        proof {
            assert(crate::ast::stat_kind_before(stat.kind, ast.born(), t));
            assert(crate::ast::stat_kind_closed(
                stat.kind,
                ast.exprs().len() as int,
                ast.blocks().len() as int,
                ast.funcs().len() as int,
            ));
        }
        if let StatKind::If { arms, otherwise } = &stat.kind {
                let mut i: usize = 0;
                while i < arms.len()
                    invariant
                        self.wf(),
                        self.same_frames(*old(self)),
                        self.ast == ast,
                        ast == old(self).ast,
                        ex == ast.exprs(),
                        self.declarations@ == d0,
                        d0 == old(self).decls(),
                        d == scope_of(d0),
                        i <= arms@.len(),
                        forall|j: int|
                            0 <= j < arms@.len() ==> #[trigger] arms@[j].0.id() < ast.exprs().len() && arms@[j].1.id()
                                < ast.blocks().len(),
                        forall|j: int|
                            0 <= j < arms@.len() ==> ast.born().exprs[#[trigger] arms@[j].0.id()] < t && ast.born().blocks[arms@[j].1.id()]
                                < t,
                        t == old(self).ast.born().stats[id.id()],
                        t == ast.born().stats[id.id()],
                        i > 0 ==> !refused_in(ex, d, arms@[0].0.id()),
                        forall|j: int| #![trigger arms@[j]] 0 <= j < i ==> !makes_refused(*ast, d, arms@[j].0.id()),
                        id.id() < ast.stats().len(),
                        *stat == ast.stats()[id.id()],
                        stat.kind == (StatKind::If { arms: *arms, otherwise: *otherwise }),
                        forall|j: int|
                            #![trigger arms@[j]]
                            0 <= j < i ==> bound_in(ex, self.bindings.uses(), arms@[j].0.id()) && makes_bound(*ast, self.bindings.uses(), arms@[j].0.id())
                                && block_bound(*ast, self.bindings.uses(), arms@[j].1.id()),
                        forall|j: int|
                            #![trigger arms@[j]]
                            0 <= j < i ==> !((j > 0 && refused_in(ex, d, arms@[j].0.id())) || (0 <= arms@[j].1.id() < ast.blocks().len()
                                && ast.born().blocks[arms@[j].1.id()] < t && block_refused(*ast, d, arms@[j].1.id()))),
                    decreases arms@.len() - i,
                {
                    let (condition, body) = arms[i];
                    let ghost u0 = self.bindings.uses();
                    let ghost k = i as int;
                    let checked = self.expr(condition);
                    if checked.is_err() {
                        proof {
                            assert(arms@[k].0 == condition);
                            assert(made_before(*ast, condition, t));
                            assert(refused_in(ex, d, condition.id()) ==> stat_refused(*ast, d, id.id())) by {
                                if k == 0 {
                                    if refused_in(ex, d, condition.id()) {
                                        assert(refuses_directly(ex, d, stat.kind));
                                    }
                                }
                            }
                            assert(makes_refused(*ast, d, condition.id()) ==> stat_refused(*ast, d, id.id()));
                        }
                        return checked;
                    }
                    let ghost u1 = self.bindings.uses();
                    let walked = self.block(body);
                    if walked.is_err() {
                        proof {
                            assert(arms@[k].1 == body);
                            assert(block_refused(*ast, d, body.id()) ==> stat_refused(*ast, d, id.id()));
                        }
                        return walked;
                    }
                    proof {
                        let u2 = self.bindings.uses();
                        lemma_bound_grows(ex, u1, u2, condition.id());
                        lemma_makes_bound_grows(*ast, u1, u2, condition.id());
                        assert forall|j: int|
                            #![trigger arms@[j]]
                            0 <= j < i + 1 implies bound_in(ex, u2, arms@[j].0.id()) && makes_bound(*ast, u2, arms@[j].0.id())
                                && block_bound(*ast, u2, arms@[j].1.id()) by {
                            if j < i {
                                lemma_bound_grows(ex, u0, u2, arms@[j].0.id());
                                lemma_makes_bound_grows(*ast, u0, u2, arms@[j].0.id());
                                lemma_block_bound_grows(*ast, u0, u2, arms@[j].1.id());
                            }
                        }
                    }
                    i += 1;
                }
                if let Some(body) = otherwise {
                    let ghost u0 = self.bindings.uses();
                    self.block(*body)?;
                    proof {
                        let u2 = self.bindings.uses();
                        assert forall|j: int|
                            #![trigger arms@[j]]
                            0 <= j < arms@.len() implies bound_in(ex, u2, arms@[j].0.id()) && makes_bound(*ast, u2, arms@[j].0.id())
                                && block_bound(*ast, u2, arms@[j].1.id()) by {
                            lemma_bound_grows(ex, u0, u2, arms@[j].0.id());
                            lemma_makes_bound_grows(*ast, u0, u2, arms@[j].0.id());
                            lemma_block_bound_grows(*ast, u0, u2, arms@[j].1.id());
                        }
                    }
                }
                assert(self.same_frames(*old(self)));
                assert(!refuses_directly(ex, d, stat.kind));
        }
        proof {
            lemma_declares_scope(old(self).declarations@, self.declarations@, stat.kind);
        }
        Ok(())
    }

    /// The statement `stat` hands on for this kind.
    #[verifier::spinoff_prover]
    #[verifier::rlimit(100)]
    fn repeat_stat(&mut self, id: StatId) -> (r: Result<(), Error>)
        requires
            old(self).wf(),
            id.id() < old(self).ast.stats().len(),
            old(self).ast.stats()[id.id()].kind is Repeat,
        ensures
            r is Ok ==> final(self).wf() && final(self).same_frames(*old(self)),
            refuses_directly(old(self).ast.exprs(), scope_of(old(self).decls()), old(self).ast.stats()[id.id()].kind) ==> r is Err,
            stat_refused(*old(self).ast, scope_of(old(self).decls()), id.id()) ==> r is Err,
            r matches Err(e) ==> label_error(e.kind) || stat_refused(*old(self).ast, scope_of(old(self).decls()), id.id()),
            r is Ok ==> declares(old(self).declarations@, final(self).declarations@, old(self).ast.stats()[id.id()].kind),
            r is Ok ==> scope_of(final(self).declarations@) == scope_of(old(self).declarations@) + introduced(old(self).ast.stats()[id.id()].kind),
            r is Ok ==> stat_bound(*old(self).ast, final(self).bindings.uses(), id.id()),
        decreases old(self).ast.born().stats[id.id()], 1nat,
    {
        let ast = self.ast;
        let stat = ast.stat(id);
        let ghost t = ast.born().stats[id.id()];
        let ghost ex = ast.exprs();
        let ghost d = scope_of(self.decls());
        let ghost d0 = self.decls();
        proof {
            assert(crate::ast::stat_kind_before(stat.kind, ast.born(), t));
            assert(crate::ast::stat_kind_closed(
                stat.kind,
                ast.exprs().len() as int,
                ast.blocks().len() as int,
                ast.funcs().len() as int,
            ));
        }
        if let StatKind::Repeat { body, condition } = &stat.kind {
                // The body's locals are visible in the condition, so its scope closes after it.
                self.enter_block();
                let ghost entered = *self;
                self.stats(*body, false)?;
                let ghost u0 = self.bindings.uses();
                self.expr(*condition)?;
                assert(!stat_refused(*ast, d, id.id()));
                proof {
                    lemma_block_bound_grows(*ast, u0, self.bindings.uses(), body.id());
                }
                let ghost mid = *self;
                self.leave_block(ast.block(*body).span.end)?;
                proof {
                    assert(mid.blocks@.last().declarations == entered.blocks@.last().declarations);
                    assert forall|i: int| 0 <= i < old(self).declarations@.len() implies #[trigger] self.declarations@[i]
                        == old(self).declarations@[i] by {
                        assert(mid.declarations@[i] == entered.declarations@[i]);
                    }
                    assert(self.declarations@ =~= old(self).declarations@);
                }
                assert(self.wf());
                assert(self.same_frames(*old(self)));
        }
        proof {
            lemma_declares_scope(old(self).declarations@, self.declarations@, stat.kind);
        }
        Ok(())
    }

}

} // verus!
