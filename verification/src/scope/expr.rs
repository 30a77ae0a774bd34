//! Expressions, and the one place a name is written to instead of read.
use vstd::prelude::*;

use super::resolver::{env_name, grows, lemma_seen, lookup_spec, scope_of, seen, Resolution, Resolver, Scoped};
use super::stat::{block_bound, func_bound, func_refused, label_error, target_refused, lemma_makes_bound_grows, lemma_scope_push, makes_bound, makes_refused, own_local, params_scope};
use vstd::string::StringSliceAdditionalSpecFns;
use crate::ast::{Expr, ExprId, ExprKind, Field, FuncId, Vararg};
use super::binding::Binding;
use crate::error::Error;

verus! {

/// Reading `name` is refused: no declaration allows it, or it is a global while `_ENV` is not
/// a variable.
pub open spec fn read_refused(s: Seq<Scoped>, name: Seq<u8>) -> bool {
    match seen(s, name) {
        None => true,
        Some((local, _)) => !local && !(seen(s, env_name()) matches Some((true, _))),
    }
}

/// Some name read in expression `id`, outside the bodies of the functions it makes, is
/// refused where the declarations are `decls`.
pub open spec fn refused_in(exprs: Seq<Expr>, decls: Seq<Scoped>, id: int) -> bool
    decreases id,
{
    if 0 <= id < exprs.len() {
        match exprs[id].kind {
            ExprKind::Name(n) => read_refused(decls, n@),
            ExprKind::Paren(inner) => inner.id() < id && refused_in(exprs, decls, inner.id()),
            ExprKind::Index { object, key } => (object.id() < id && refused_in(exprs, decls, object.id())) || (key.id() < id
                && refused_in(exprs, decls, key.id())),
            ExprKind::Call { callee, args } => (callee.id() < id && refused_in(exprs, decls, callee.id())) || exists|i: int|
                #![trigger args@[i]]
                0 <= i < args@.len() && args@[i].id() < id && refused_in(exprs, decls, args@[i].id()),
            ExprKind::Method { object, args, .. } => (object.id() < id && refused_in(exprs, decls, object.id())) || exists|i: int|
                #![trigger args@[i]]
                0 <= i < args@.len() && args@[i].id() < id && refused_in(exprs, decls, args@[i].id()),
            ExprKind::Unary { operand, .. } => operand.id() < id && refused_in(exprs, decls, operand.id()),
            ExprKind::Binary { left, right, .. } => (left.id() < id && refused_in(exprs, decls, left.id())) || (right.id() < id
                && refused_in(exprs, decls, right.id())),
            ExprKind::Table(fields) => exists|i: int|
                #![trigger fields@[i]]
                0 <= i < fields@.len() && match fields@[i] {
                    Field::Positional(value) => value.id() < id && refused_in(exprs, decls, value.id()),
                    Field::Named { value, .. } => value.id() < id && refused_in(exprs, decls, value.id()),
                    Field::Keyed { key, value } => (key.id() < id && refused_in(exprs, decls, key.id())) || (value.id() < id
                        && refused_in(exprs, decls, value.id())),
                },
            _ => false,
        }
    } else {
        false
    }
}

/// Expression `id` makes a function somewhere in it.
pub(crate) open spec fn makes_function(exprs: Seq<Expr>, id: int) -> bool
    decreases id,
{
    if 0 <= id < exprs.len() {
        match exprs[id].kind {
            ExprKind::Function(_) => true,
            ExprKind::Paren(inner) => inner.id() < id && makes_function(exprs, inner.id()),
            ExprKind::Index { object, key } => (object.id() < id && makes_function(exprs, object.id())) || (key.id() < id
                && makes_function(exprs, key.id())),
            ExprKind::Call { callee, args } => (callee.id() < id && makes_function(exprs, callee.id())) || exists|i: int|
                #![trigger args@[i]]
                0 <= i < args@.len() && args@[i].id() < id && makes_function(exprs, args@[i].id()),
            ExprKind::Method { object, args, .. } => (object.id() < id && makes_function(exprs, object.id())) || exists|i: int|
                #![trigger args@[i]]
                0 <= i < args@.len() && args@[i].id() < id && makes_function(exprs, args@[i].id()),
            ExprKind::Unary { operand, .. } => operand.id() < id && makes_function(exprs, operand.id()),
            ExprKind::Binary { left, right, .. } => (left.id() < id && makes_function(exprs, left.id())) || (right.id() < id
                && makes_function(exprs, right.id())),
            ExprKind::Table(fields) => exists|i: int|
                #![trigger fields@[i]]
                0 <= i < fields@.len() && match fields@[i] {
                    Field::Positional(value) => value.id() < id && makes_function(exprs, value.id()),
                    Field::Named { value, .. } => value.id() < id && makes_function(exprs, value.id()),
                    Field::Keyed { key, value } => (key.id() < id && makes_function(exprs, key.id())) || (value.id() < id
                        && makes_function(exprs, value.id())),
                },
            _ => false,
        }
    } else {
        false
    }
}

/// Every name read in expression `id`, outside the bodies of the functions it makes, is bound.
pub open spec fn bound_in(exprs: Seq<Expr>, uses: Seq<Option<Binding>>, id: int) -> bool
    decreases id,
{
    if 0 <= id < exprs.len() {
        match exprs[id].kind {
            ExprKind::Name(_) => id < uses.len() && uses[id] is Some,
            ExprKind::Paren(inner) => inner.id() < id ==> bound_in(exprs, uses, inner.id()),
            ExprKind::Index { object, key } => (object.id() < id ==> bound_in(exprs, uses, object.id())) && (key.id() < id
                ==> bound_in(exprs, uses, key.id())),
            ExprKind::Call { callee, args } => (callee.id() < id ==> bound_in(exprs, uses, callee.id())) && forall|i: int|
                #![trigger args@[i]]
                0 <= i < args@.len() && args@[i].id() < id ==> bound_in(exprs, uses, args@[i].id()),
            ExprKind::Method { object, args, .. } => (object.id() < id ==> bound_in(exprs, uses, object.id())) && forall|i: int|
                #![trigger args@[i]]
                0 <= i < args@.len() && args@[i].id() < id ==> bound_in(exprs, uses, args@[i].id()),
            ExprKind::Unary { operand, .. } => operand.id() < id ==> bound_in(exprs, uses, operand.id()),
            ExprKind::Binary { left, right, .. } => (left.id() < id ==> bound_in(exprs, uses, left.id())) && (right.id() < id
                ==> bound_in(exprs, uses, right.id())),
            ExprKind::Table(fields) => forall|i: int|
                #![trigger fields@[i]]
                0 <= i < fields@.len() ==> match fields@[i] {
                    Field::Positional(value) => value.id() < id ==> bound_in(exprs, uses, value.id()),
                    Field::Named { value, .. } => value.id() < id ==> bound_in(exprs, uses, value.id()),
                    Field::Keyed { key, value } => (key.id() < id ==> bound_in(exprs, uses, key.id())) && (value.id() < id
                        ==> bound_in(exprs, uses, value.id())),
                },
            _ => true,
        }
    } else {
        true
    }
}

/// A name that was bound stays bound.
pub(crate) proof fn lemma_bound_grows(exprs: Seq<Expr>, before: Seq<Option<Binding>>, after: Seq<Option<Binding>>, id: int)
    requires
        bound_in(exprs, before, id),
        grows(before, after),
    ensures
        bound_in(exprs, after, id),
    decreases id,
{
    if 0 <= id < exprs.len() {
        match exprs[id].kind {
            ExprKind::Name(_) => {
                assert(before[id] is Some);
            },
            ExprKind::Paren(inner) => {
                if inner.id() < id {
                    lemma_bound_grows(exprs, before, after, inner.id());
                }
            },
            ExprKind::Index { object, key } => {
                if object.id() < id {
                    lemma_bound_grows(exprs, before, after, object.id());
                }
                if key.id() < id {
                    lemma_bound_grows(exprs, before, after, key.id());
                }
            },
            ExprKind::Call { callee, args } => {
                if callee.id() < id {
                    lemma_bound_grows(exprs, before, after, callee.id());
                }
                assert forall|i: int| #![trigger args@[i]] 0 <= i < args@.len() && args@[i].id() < id implies bound_in(
                    exprs,
                    after,
                    args@[i].id(),
                ) by {
                    lemma_bound_grows(exprs, before, after, args@[i].id());
                }
            },
            ExprKind::Method { object, args, .. } => {
                if object.id() < id {
                    lemma_bound_grows(exprs, before, after, object.id());
                }
                assert forall|i: int| #![trigger args@[i]] 0 <= i < args@.len() && args@[i].id() < id implies bound_in(
                    exprs,
                    after,
                    args@[i].id(),
                ) by {
                    lemma_bound_grows(exprs, before, after, args@[i].id());
                }
            },
            ExprKind::Unary { operand, .. } => {
                if operand.id() < id {
                    lemma_bound_grows(exprs, before, after, operand.id());
                }
            },
            ExprKind::Binary { left, right, .. } => {
                if left.id() < id {
                    lemma_bound_grows(exprs, before, after, left.id());
                }
                if right.id() < id {
                    lemma_bound_grows(exprs, before, after, right.id());
                }
            },
            ExprKind::Table(fields) => {
                assert forall|i: int| #![trigger fields@[i]] 0 <= i < fields@.len() implies match fields@[i] {
                    Field::Positional(value) => value.id() < id ==> bound_in(exprs, after, value.id()),
                    Field::Named { value, .. } => value.id() < id ==> bound_in(exprs, after, value.id()),
                    Field::Keyed { key, value } => (key.id() < id ==> bound_in(exprs, after, key.id())) && (value.id() < id
                        ==> bound_in(exprs, after, value.id())),
                } by {
                    match fields@[i] {
                        Field::Positional(value) => if value.id() < id {
                            lemma_bound_grows(exprs, before, after, value.id());
                        },
                        Field::Named { value, .. } => if value.id() < id {
                            lemma_bound_grows(exprs, before, after, value.id());
                        },
                        Field::Keyed { key, value } => {
                            if key.id() < id {
                                lemma_bound_grows(exprs, before, after, key.id());
                            }
                            if value.id() < id {
                                lemma_bound_grows(exprs, before, after, value.id());
                            }
                        },
                    }
                }
            },
            _ => {},
        }
    }
}

impl<'a, 'src> Resolver<'a, 'src> {
    /// A name read or written at expression `id`: refused where no declaration allows it, and
    /// otherwise bound, as a variable exactly where the lookup finds one, with every other
    /// expression's binding as it was.
    pub(crate) open spec fn name_resolved(before: Self, after: Self, id: int, name: Seq<u8>, r: Result<(), Error>, writing: bool) -> bool {
        &&& lookup_spec(before.decls(), name) is Undeclared ==> r is Err
        &&& writing && match lookup_spec(before.decls(), name) {
            Resolution::Variable { readonly, .. } => readonly,
            Resolution::Global { readonly } => readonly,
            Resolution::Undeclared => true,
        } ==> r is Err
        &&& r is Ok ==> (after.bindings.uses()[id] matches Some(b) && (b is Variable <==> lookup_spec(before.decls(), name) is Variable))
        &&& r is Ok ==> forall|i: int| 0 <= i < before.bindings.uses().len() && i != id ==> #[trigger] after.bindings.uses()[i] == before.bindings.uses()[i]
    }

    /// The frames are kept when each part of them is.
    proof fn lemma_frames_kept(a: Self, b: Self)
        requires
            a.ast == b.ast,
            a.blocks@.len() == b.blocks@.len(),
            a.functions@.len() == b.functions@.len(),
            forall|j: int| 0 <= j < a.blocks@.len() ==> #[trigger] a.blocks@[j].declarations == b.blocks@[j].declarations,
            forall|k: int|
                0 <= k < a.functions@.len() ==> #[trigger] a.functions@[k].floor == b.functions@[k].floor
                    && a.functions@[k].index == b.functions@[k].index,
            a.declarations@.len() >= b.declarations@.len(),
            forall|i: int| 0 <= i < b.declarations@.len() ==> #[trigger] a.declarations@[i] == b.declarations@[i],
            grows(b.bindings.uses(), a.bindings.uses()),
        ensures
            a.same_frames(b),
    {
    }

    /// An assignment target: a name is written to, anything else is read.
    #[verifier::spinoff_prover]
    #[verifier::rlimit(40)]
    pub(crate) fn target(&mut self, id: ExprId) -> (r: Result<(), Error>)
        requires
            old(self).wf(),
            id.id() < old(self).ast.exprs().len(),
        ensures
            r is Ok ==> final(self).wf() && final(self).same_frames(*old(self)),
            r is Ok ==> final(self).declarations@ == old(self).declarations@,
            r is Ok ==> bound_in(old(self).ast.exprs(), final(self).bindings.uses(), id.id()),
            r is Ok ==> makes_bound(*old(self).ast, final(self).bindings.uses(), id.id()),
            refused_in(old(self).ast.exprs(), scope_of(old(self).decls()), id.id()) ==> r is Err,
            makes_refused(*old(self).ast, scope_of(old(self).decls()), id.id()) ==> r is Err,
            r matches Err(e) ==> label_error(e.kind) || target_refused(old(self).ast.exprs(), scope_of(old(self).decls()), id.id())
                || makes_refused(*old(self).ast, scope_of(old(self).decls()), id.id()),
            r is Err && !(old(self).ast.exprs()[id.id()].kind is Name) ==> refused_in(old(self).ast.exprs(), scope_of(old(self).decls()), id.id())
                || makes_function(old(self).ast.exprs(), id.id()),
            old(self).ast.exprs()[id.id()].kind matches ExprKind::Name(n) ==> Self::name_resolved(*old(self), *final(self), id.id(), n@, r, true),
        decreases old(self).ast.born().exprs[id.id()], 2nat,
    {
        let ast = self.ast;
        let expr = ast.expr(id);
        match &expr.kind {
            ExprKind::Name(name) => {
                proof {
                    lemma_seen(self.decls(), name@);
                    lemma_seen(self.decls(), env_name());
                }
                self.access(id, *name, expr.span.start, true)
            },
            _ => self.expr(id),
        }
    }

    /// Every name read in the expression, outside the functions it makes, is looked up where
    /// the declarations are as they were on entry, and bound; the walk is refused when one of
    /// those reads is, and otherwise only by a function the expression makes.
    #[verifier::spinoff_prover]
    #[verifier::rlimit(80)]
    pub(crate) fn expr(&mut self, id: ExprId) -> (r: Result<(), Error>)
        requires
            old(self).wf(),
            id.id() < old(self).ast.exprs().len(),
        ensures
            r is Ok ==> final(self).wf() && final(self).same_frames(*old(self)),
            r is Ok ==> final(self).declarations@ == old(self).declarations@,
            r is Ok ==> bound_in(old(self).ast.exprs(), final(self).bindings.uses(), id.id()),
            r is Ok ==> makes_bound(*old(self).ast, final(self).bindings.uses(), id.id()),
            refused_in(old(self).ast.exprs(), scope_of(old(self).decls()), id.id()) ==> r is Err,
            makes_refused(*old(self).ast, scope_of(old(self).decls()), id.id()) ==> r is Err,
            r is Err ==> refused_in(old(self).ast.exprs(), scope_of(old(self).decls()), id.id()) || makes_function(old(self).ast.exprs(), id.id()),
            r matches Err(e) ==> label_error(e.kind) || refused_in(old(self).ast.exprs(), scope_of(old(self).decls()), id.id())
                || makes_refused(*old(self).ast, scope_of(old(self).decls()), id.id()),
            old(self).ast.exprs()[id.id()].kind matches ExprKind::Name(n) ==> Self::name_resolved(*old(self), *final(self), id.id(), n@, r, false),
        decreases old(self).ast.born().exprs[id.id()], 1nat,
    {
        let ast = self.ast;
        let expr = ast.expr(id);
        let ghost t = ast.born().exprs[id.id()];
        let ghost ex = ast.exprs();
        let ghost d = scope_of(self.decls());
        let ghost k = id.id();
        proof {
            assert(crate::ast::expr_kind_before(expr.kind, ast.born(), t));
            assert(crate::ast::expr_kind_closed(expr.kind, id.id(), ast.funcs().len() as int));
        }
        match &expr.kind {
            ExprKind::Nil | ExprKind::True | ExprKind::False | ExprKind::Int(_) | ExprKind::Float(_) | ExprKind::Str(_)
            | ExprKind::Vararg => {},
            ExprKind::Name(name) => {
                proof {
                    lemma_seen(self.decls(), name@);
                    lemma_seen(self.decls(), env_name());
                }
                return self.access(id, *name, expr.span.start, false);
            },
            ExprKind::Paren(inner) => self.expr(*inner)?,
            ExprKind::Index { object, key } => {
                self.expr(*object)?;
                let ghost u1 = self.bindings.uses();
                self.expr(*key)?;
                proof {
                    lemma_bound_grows(ex, u1, self.bindings.uses(), object.id());
                    lemma_makes_bound_grows(*ast, u1, self.bindings.uses(), object.id());
                }
            },
            ExprKind::Call { callee, args } => {
                self.expr(*callee)?;
                let ghost u1 = self.bindings.uses();
                self.exprs(args, Ghost(t))?;
                proof {
                    lemma_bound_grows(ex, u1, self.bindings.uses(), callee.id());
                    lemma_makes_bound_grows(*ast, u1, self.bindings.uses(), callee.id());
                }
            },
            // A method's own name is a key, not a variable.
            ExprKind::Method { object, args, .. } => {
                self.expr(*object)?;
                let ghost u1 = self.bindings.uses();
                self.exprs(args, Ghost(t))?;
                proof {
                    lemma_bound_grows(ex, u1, self.bindings.uses(), object.id());
                    lemma_makes_bound_grows(*ast, u1, self.bindings.uses(), object.id());
                }
            },
            ExprKind::Unary { operand, .. } => self.expr(*operand)?,
            ExprKind::Binary { left, right, .. } => {
                self.expr(*left)?;
                let ghost u1 = self.bindings.uses();
                self.expr(*right)?;
                proof {
                    lemma_bound_grows(ex, u1, self.bindings.uses(), left.id());
                    lemma_makes_bound_grows(*ast, u1, self.bindings.uses(), left.id());
                }
            },
            ExprKind::Table(fields) => {
                let mut f: usize = 0;
                while f < fields.len()
                    invariant
                        self.wf(),
                        self.same_frames(*old(self)),
                        self.ast == ast,
                        ex == ast.exprs(),
                        scope_of(self.declarations@) == d,
                        self.declarations@ == old(self).declarations@,
                        d == scope_of(old(self).decls()),
                        k == id.id(),
                        0 <= k < ex.len(),
                        ex[k].kind == ExprKind::Table(*fields),
                        f <= fields@.len(),
                        forall|i: int| 0 <= i < fields@.len() ==> crate::ast::field_closed(#[trigger] fields@[i], k),
                        forall|i: int|
                            0 <= i < fields@.len() ==> match #[trigger] fields@[i] {
                                Field::Positional(value) => ast.born().exprs[value.id()] < t,
                                Field::Named { value, .. } => ast.born().exprs[value.id()] < t,
                                Field::Keyed { key, value } => ast.born().exprs[key.id()] < t && ast.born().exprs[value.id()] < t,
                            },
                        t == old(self).ast.born().exprs[id.id()],
                        forall|i: int|
                            #![trigger fields@[i]]
                            0 <= i < f ==> !match fields@[i] {
                                Field::Positional(value) => value.id() < k && refused_in(ex, d, value.id()),
                                Field::Named { value, .. } => value.id() < k && refused_in(ex, d, value.id()),
                                Field::Keyed { key, value } => (key.id() < k && refused_in(ex, d, key.id())) || (value.id() < k
                                    && refused_in(ex, d, value.id())),
                            },
                        forall|i: int|
                            #![trigger fields@[i]]
                            0 <= i < f ==> match fields@[i] {
                                Field::Positional(value) => value.id() < k ==> bound_in(ex, self.bindings.uses(), value.id()),
                                Field::Named { value, .. } => value.id() < k ==> bound_in(ex, self.bindings.uses(), value.id()),
                                Field::Keyed { key, value } => (key.id() < k ==> bound_in(ex, self.bindings.uses(), key.id())) && (
                                value.id() < k ==> bound_in(ex, self.bindings.uses(), value.id())),
                            },
                        forall|i: int|
                            #![trigger fields@[i]]
                            0 <= i < f ==> match fields@[i] {
                                Field::Positional(value) => !makes_refused(*ast, d, value.id()),
                                Field::Named { value, .. } => !makes_refused(*ast, d, value.id()),
                                Field::Keyed { key, value } => !makes_refused(*ast, d, key.id()) && !makes_refused(*ast, d, value.id()),
                            },
                        forall|i: int|
                            #![trigger fields@[i]]
                            0 <= i < f ==> match fields@[i] {
                                Field::Positional(value) => makes_bound(*ast, self.bindings.uses(), value.id()),
                                Field::Named { value, .. } => makes_bound(*ast, self.bindings.uses(), value.id()),
                                Field::Keyed { key, value } => makes_bound(*ast, self.bindings.uses(), key.id()) && makes_bound(
                                    *ast,
                                    self.bindings.uses(),
                                    value.id(),
                                ),
                            },
                    decreases fields@.len() - f,
                {
                    let ghost u0 = self.bindings.uses();
                    let ghost fi = f as int;
                    let step = match &fields[f] {
                        Field::Positional(value) => self.expr(*value),
                        Field::Named { value, .. } => self.expr(*value),
                        Field::Keyed { key, value } => {
                            let first = self.expr(*key);
                            if first.is_err() {
                                first
                            } else {
                                let ghost u1 = self.bindings.uses();
                                let second = self.expr(*value);
                                proof {
                                    if second is Ok {
                                        lemma_bound_grows(ex, u1, self.bindings.uses(), key.id());
                                        lemma_makes_bound_grows(*ast, u1, self.bindings.uses(), key.id());
                                    }
                                }
                                second
                            }
                        },
                    };
                    if step.is_err() {
                        proof {
                            match fields@[fi] {
                                Field::Positional(value) => {
                                    if refused_in(ex, d, value.id()) {
                                        assert(refused_in(ex, d, k));
                                    } else {
                                        assert(makes_function(ex, k));
                                    }
                                },
                                Field::Named { value, .. } => {
                                    if refused_in(ex, d, value.id()) {
                                        assert(refused_in(ex, d, k));
                                    } else {
                                        assert(makes_function(ex, k));
                                    }
                                },
                                Field::Keyed { key, value } => {
                                    if refused_in(ex, d, key.id()) || refused_in(ex, d, value.id()) {
                                        assert(refused_in(ex, d, k));
                                    } else {
                                        assert(makes_function(ex, k));
                                    }
                                },
                            }
                        }
                        return step;
                    }
                    proof {
                        let u2 = self.bindings.uses();
                        assert(grows(u0, u2));
                        assert forall|i: int| #![trigger fields@[i]] 0 <= i < f implies match fields@[i] {
                            Field::Positional(value) => makes_bound(*ast, u2, value.id()),
                            Field::Named { value, .. } => makes_bound(*ast, u2, value.id()),
                            Field::Keyed { key, value } => makes_bound(*ast, u2, key.id()) && makes_bound(*ast, u2, value.id()),
                        } by {
                            match fields@[i] {
                                Field::Positional(value) => lemma_makes_bound_grows(*ast, u0, u2, value.id()),
                                Field::Named { value, .. } => lemma_makes_bound_grows(*ast, u0, u2, value.id()),
                                Field::Keyed { key, value } => {
                                    lemma_makes_bound_grows(*ast, u0, u2, key.id());
                                    lemma_makes_bound_grows(*ast, u0, u2, value.id());
                                },
                            }
                        }
                        assert forall|i: int| #![trigger fields@[i]] 0 <= i < f implies match fields@[i] {
                            Field::Positional(value) => value.id() < k ==> bound_in(ex, u2, value.id()),
                            Field::Named { value, .. } => value.id() < k ==> bound_in(ex, u2, value.id()),
                            Field::Keyed { key, value } => (key.id() < k ==> bound_in(ex, u2, key.id())) && (value.id() < k
                                ==> bound_in(ex, u2, value.id())),
                        } by {
                            match fields@[i] {
                                Field::Positional(value) => if value.id() < k {
                                    lemma_bound_grows(ex, u0, u2, value.id());
                                },
                                Field::Named { value, .. } => if value.id() < k {
                                    lemma_bound_grows(ex, u0, u2, value.id());
                                },
                                Field::Keyed { key, value } => {
                                    if key.id() < k {
                                        lemma_bound_grows(ex, u0, u2, key.id());
                                    }
                                    if value.id() < k {
                                        lemma_bound_grows(ex, u0, u2, value.id());
                                    }
                                },
                            }
                        }
                    }
                    f += 1;
                }
            },
            ExprKind::Function(func) => self.func(*func)?,
        }
        proof {
            assert(!(old(self).ast.exprs()[id.id()].kind is Name));
            assert(self.wf());
            assert(self.same_frames(*old(self)));
        }
        Ok(())
    }

    /// Every expression of a list, each made before `t`, in order, where the declarations
    /// stay as they were on entry.
    #[verifier::spinoff_prover]
    #[verifier::rlimit(40)]
    pub(crate) fn exprs(&mut self, list: &Vec<ExprId>, t: Ghost<nat>) -> (r: Result<(), Error>)
        requires
            old(self).wf(),
            forall|i: int| 0 <= i < list@.len() ==> #[trigger] list@[i].id() < old(self).ast.exprs().len(),
            forall|i: int| 0 <= i < list@.len() ==> old(self).ast.born().exprs[#[trigger] list@[i].id()] < t@,
        ensures
            r is Ok ==> final(self).wf() && final(self).same_frames(*old(self)),
            r is Ok ==> final(self).declarations@ == old(self).declarations@,
            r is Ok ==> forall|i: int| 0 <= i < list@.len() ==> bound_in(old(self).ast.exprs(), final(self).bindings.uses(), #[trigger] list@[i].id()),
            r is Ok ==> forall|i: int| 0 <= i < list@.len() ==> makes_bound(*old(self).ast, final(self).bindings.uses(), #[trigger] list@[i].id()),
            (exists|i: int| 0 <= i < list@.len() && refused_in(old(self).ast.exprs(), scope_of(old(self).decls()), #[trigger] list@[i].id())) ==> r is Err,
            (exists|i: int| 0 <= i < list@.len() && makes_refused(*old(self).ast, scope_of(old(self).decls()), #[trigger] list@[i].id())) ==> r is Err,
            r is Err ==> exists|i: int|
                0 <= i < list@.len() && (refused_in(old(self).ast.exprs(), scope_of(old(self).decls()), #[trigger] list@[i].id()) || makes_function(
                    old(self).ast.exprs(),
                    list@[i].id(),
                )),
            r matches Err(e) ==> label_error(e.kind) || exists|i: int|
                0 <= i < list@.len() && (refused_in(old(self).ast.exprs(), scope_of(old(self).decls()), #[trigger] list@[i].id())
                    || makes_refused(*old(self).ast, scope_of(old(self).decls()), list@[i].id())),
        decreases t@, 0nat,
    {
        let ghost ast = self.ast;
        let ghost ex = ast.exprs();
        let ghost d = scope_of(self.decls());
        let mut i: usize = 0;
        while i < list.len()
            invariant
                self.wf(),
                self.same_frames(*old(self)),
                self.ast == ast,
                ast == old(self).ast,
                ex == ast.exprs(),
                scope_of(self.declarations@) == d,
                self.declarations@ == old(self).declarations@,
                d == scope_of(old(self).decls()),
                i <= list@.len(),
                forall|j: int| 0 <= j < list@.len() ==> #[trigger] list@[j].id() < ast.exprs().len(),
                forall|j: int| 0 <= j < list@.len() ==> ast.born().exprs[#[trigger] list@[j].id()] < t@,
                forall|j: int| 0 <= j < i ==> !refused_in(ex, d, #[trigger] list@[j].id()),
                forall|j: int| 0 <= j < i ==> !makes_refused(*ast, d, #[trigger] list@[j].id()),
                forall|j: int| 0 <= j < i ==> bound_in(ex, self.bindings.uses(), #[trigger] list@[j].id()),
                forall|j: int| 0 <= j < i ==> makes_bound(*ast, self.bindings.uses(), #[trigger] list@[j].id()),
            decreases list@.len() - i,
        {
            let ghost u0 = self.bindings.uses();
            let step = self.expr(list[i]);
            if step.is_err() {
                proof {
                    assert(refused_in(ex, d, list@[i as int].id()) || makes_function(ex, list@[i as int].id()));
                }
                return step;
            }
            proof {
                let u1 = self.bindings.uses();
                assert forall|j: int| 0 <= j < i + 1 implies bound_in(ex, u1, #[trigger] list@[j].id()) by {
                    if j < i {
                        lemma_bound_grows(ex, u0, u1, list@[j].id());
                    }
                }
                assert forall|j: int| 0 <= j < i + 1 implies makes_bound(*ast, u1, #[trigger] list@[j].id()) by {
                    if j < i {
                        lemma_makes_bound_grows(*ast, u0, u1, list@[j].id());
                    }
                }
            }
            i += 1;
        }
        Ok(())
    }

    #[verifier::spinoff_prover]
    #[verifier::rlimit(50)]
    pub(crate) fn func(&mut self, id: FuncId) -> (r: Result<(), Error>)
        requires
            old(self).wf(),
            id.id() < old(self).ast.funcs().len(),
        ensures
            r is Ok ==> final(self).wf() && final(self).same_frames(*old(self)),
            r is Ok ==> final(self).declarations@ == old(self).declarations@,
            func_refused(*old(self).ast, scope_of(old(self).decls()), id.id()) ==> r is Err,
            r matches Err(e) ==> label_error(e.kind) || func_refused(*old(self).ast, scope_of(old(self).decls()), id.id()),
            r is Ok ==> func_bound(*old(self).ast, final(self).bindings.uses(), id.id()),
        decreases old(self).ast.born().funcs[id.id()], 1nat,
    {
        let ast = self.ast;
        let func = ast.func(id);
        let index = id.0 as usize + 1;
        let ghost s0 = scope_of(self.decls());
        self.enter_function(index);
        // A method's receiver is not in the parameter list.
        if func.is_method {
            let ghost before = self.declarations@;
            self.declare_local("self".as_bytes(), false);
            proof {
                lemma_scope_push(before, self.declarations@);
            }
        }
        let ghost own = if func.is_method {
            seq![own_local("self".spec_bytes(), false)]
        } else {
            Seq::empty()
        };
        proof {
            assert(scope_of(self.declarations@) =~= s0 + own + Seq::new(0, |i: int| own_local(func.params@[i]@, false)));
        }
        let mut p: usize = 0;
        while p < func.params.len()
            invariant
                scope_of(self.declarations@) == s0 + own + Seq::new(p as nat, |i: int| own_local(func.params@[i]@, false)),
                self.wf(),
                self.ast == ast,
                self.blocks@.len() == old(self).blocks@.len() + 1,
                self.functions@.len() == old(self).functions@.len() + 1,
                forall|j: int| 0 <= j < old(self).blocks@.len() ==> #[trigger] self.blocks@[j].declarations == old(self).blocks@[j].declarations,
                forall|k: int|
                    0 <= k < old(self).functions@.len() ==> #[trigger] self.functions@[k].floor == old(self).functions@[k].floor
                        && self.functions@[k].index == old(self).functions@[k].index,
                self.functions@.last().floor == old(self).blocks@.len(),
                self.blocks@.last().declarations == old(self).declarations@.len(),
                self.declarations@.len() >= old(self).declarations@.len(),
                forall|i: int| 0 <= i < old(self).declarations@.len() ==> #[trigger] self.declarations@[i] == old(self).declarations@[i],
                self.bindings == old(self).bindings,
                p <= func.params@.len(),
            decreases func.params@.len() - p,
        {
            let ghost before = self.declarations@;
            self.declare_local(func.params[p], false);
            proof {
                lemma_scope_push(before, self.declarations@);
                assert(scope_of(self.declarations@) =~= s0 + own + Seq::new((p + 1) as nat, |i: int| own_local(func.params@[i]@, false)));
            }
            p += 1;
        }
        proof {
            assert(Seq::new(p as nat, |i: int| own_local(func.params@[i]@, false)) =~= Seq::new(func.params@.len(), |i: int| own_local(func.params@[i]@, false)));
        }
        if let Some(Vararg::Named(name)) = func.vararg {
            let ghost before = self.declarations@;
            self.declare_local(name, true);
            proof {
                lemma_scope_push(before, self.declarations@);
            }
        }
        proof {
            assert(scope_of(self.declarations@) =~= s0 + params_scope(*func));
        }
        let ghost declared = *self;
        self.stats(func.body, true)?;
        let ghost mid = *self;
        proof {
            assert forall|j: int| 0 <= j < old(self).blocks@.len() implies #[trigger] mid.blocks@[j].declarations
                == old(self).blocks@[j].declarations by {
                assert(mid.blocks@[j].declarations == declared.blocks@[j].declarations);
            }
            assert forall|k: int| 0 <= k < old(self).functions@.len() implies #[trigger] mid.functions@[k].floor
                == old(self).functions@[k].floor && mid.functions@[k].index == old(self).functions@[k].index by {
                assert(mid.functions@[k].floor == declared.functions@[k].floor);
            }
            assert(mid.functions@.last().floor == declared.functions@.last().floor);
            assert(mid.blocks@.last().declarations == declared.blocks@.last().declarations);
            assert(mid.blocks@.last().declarations == old(self).declarations@.len());
        }
        self.leave_function(func.span.end)?;
        proof {
            assert forall|j: int| 0 <= j < self.blocks@.len() implies #[trigger] self.blocks@[j].declarations
                == old(self).blocks@[j].declarations by {
                assert(self.blocks@[j] == mid.blocks@[j]);
                assert(mid.blocks@[j].declarations == old(self).blocks@[j].declarations);
            }
            assert forall|k: int| 0 <= k < self.functions@.len() implies #[trigger] self.functions@[k].floor
                == old(self).functions@[k].floor && self.functions@[k].index == old(self).functions@[k].index by {
                assert(self.functions@[k] == mid.functions@[k]);
                assert(mid.functions@[k].floor == old(self).functions@[k].floor);
                assert(mid.functions@[k].index == old(self).functions@[k].index);
            }
            assert(self.functions@.len() == old(self).functions@.len());
            assert(self.blocks@.len() == old(self).blocks@.len());
            assert(self.declarations@.len() == old(self).declarations@.len());
            assert(self.ast == mid.ast);
            assert(mid.ast == old(self).ast);
            assert(self.wf());
            assert(self.ast == old(self).ast);
            assert(forall|j: int| 0 <= j < self.blocks@.len() ==> #[trigger] self.blocks@[j].declarations == old(self).blocks@[j].declarations);
            assert(forall|k: int|
                0 <= k < self.functions@.len() ==> #[trigger] self.functions@[k].floor == old(self).functions@[k].floor
                    && self.functions@[k].index == old(self).functions@[k].index);
            assert forall|i: int| 0 <= i < old(self).declarations@.len() implies #[trigger] self.declarations@[i]
                == old(self).declarations@[i] by {
                assert(self.declarations@[i] == mid.declarations@[i]);
                assert(mid.declarations@[i] == declared.declarations@[i]);
            }
            assert(self.declarations@ =~= old(self).declarations@);
            assert(declared.bindings == old(self).bindings);
            assert(grows(declared.bindings.uses(), mid.bindings.uses()));
            assert(grows(old(self).bindings.uses(), self.bindings.uses()));
            Self::lemma_frames_kept(*self, *old(self));
        }
        Ok(())
    }
}

} // verus!
