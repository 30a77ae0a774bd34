//! The resolver's state: the declaration stack, and what a name turns out to be.
use vstd::prelude::*;

use super::binding::{Access, Binding, Bindings, Capture, VarId};
use super::label::{frame_ok, names_only, BlockFrame, FunctionFrame};
use crate::text::same_bytes;
use crate::ast::{Ast, ExprId};
use crate::error::{Error, ErrorKind, Near};
use vstd::string::StringSliceAdditionalSpecFns;

verus! {

pub(crate) struct Resolver<'a, 'src> {
    pub(crate) ast: &'a Ast<'src>,
    pub(crate) declarations: Vec<Declaration<'src>>,
    pub(crate) blocks: Vec<BlockFrame<'src>>,
    pub(crate) functions: Vec<FunctionFrame<'src>>,
    pub(crate) bindings: Bindings,
    /// The number the next local's declaration site gets.
    pub(crate) next_var: u32,
}

pub(crate) struct Declaration<'src> {
    /// `None` for the wildcard `global *`.
    pub(crate) name: Option<&'src [u8]>,
    /// How the function that declared it reaches it. `None` for a global.
    pub(crate) at_owner: Option<Access>,
    /// The depth of the function frame that declared it.
    pub(crate) function: usize,
    pub(crate) is_global: bool,
    pub(crate) readonly: bool,
}

/// What a name turned out to be, before the capture chain is walked.
#[derive(Clone, Copy)]
pub(crate) enum Resolution {
    Variable { at_owner: Access, owner: usize, readonly: bool },
    Global { readonly: bool },
    Undeclared,
}

/// What `name` is, looking back through the first `i` declarations from the last, having
/// met the wildcard `global *` (with whether it was read-only) and any global declaration in
/// the later ones: the latest declaration of the name decides; with none, a wildcard makes it
/// a global, a global declaration of other names makes it undeclared, and with neither it is a
/// global as always.
pub(crate) open spec fn lookup_from(decls: Seq<Declaration>, name: Seq<u8>, i: int, wildcard: Option<bool>, any_global: bool) -> Resolution
    decreases i,
{
    if i <= 0 {
        match wildcard {
            Some(readonly) => Resolution::Global { readonly },
            None => if any_global {
                Resolution::Undeclared
            } else {
                Resolution::Global { readonly: false }
            },
        }
    } else {
        let d = decls[i - 1];
        match d.name {
            Some(declared) => if declared@ == name {
                match d.at_owner {
                    Some(at_owner) => Resolution::Variable { at_owner, owner: d.function, readonly: d.readonly },
                    None => Resolution::Global { readonly: d.readonly },
                }
            } else {
                lookup_from(decls, name, i - 1, wildcard, any_global || d.is_global)
            },
            None => lookup_from(
                decls,
                name,
                i - 1,
                if wildcard is Some {
                    wildcard
                } else {
                    Some(d.readonly)
                },
                true,
            ),
        }
    }
}

/// What `name` is where the declarations are `decls`.
pub(crate) open spec fn lookup_spec(decls: Seq<Declaration>, name: Seq<u8>) -> Resolution {
    lookup_from(decls, name, decls.len() as int, None, false)
}

/// What a lookup sees of a declaration: its name (`None` for the wildcard of `global *`),
/// whether it is a local, whether it is a global declaration, and whether it is read-only.
pub struct Scoped {
    pub name: Option<Seq<u8>>,
    pub local: bool,
    pub global: bool,
    pub readonly: bool,
}

pub(crate) open spec fn scoped(d: Declaration) -> Scoped {
    Scoped {
        name: match d.name {
            Some(n) => Some(n@),
            None => None,
        },
        local: d.at_owner is Some,
        global: d.is_global,
        readonly: d.readonly,
    }
}

/// The declarations as a lookup sees them.
pub(crate) open spec fn scope_of(decls: Seq<Declaration>) -> Seq<Scoped> {
    decls.map_values(|d: Declaration| scoped(d))
}

/// What `name` is, looking back through the first `i` entries of a scope: `None` where no
/// declaration allows it, otherwise whether it is a local and whether it is read-only. The
/// same walk as `lookup_from`, over what the lookup sees.
pub open spec fn seen_from(s: Seq<Scoped>, name: Seq<u8>, i: int, wildcard: Option<bool>, any_global: bool) -> Option<(bool, bool)>
    decreases i,
{
    if i <= 0 {
        match wildcard {
            Some(readonly) => Some((false, readonly)),
            None => if any_global {
                None
            } else {
                Some((false, false))
            },
        }
    } else {
        let e = s[i - 1];
        match e.name {
            Some(declared) => if declared == name {
                Some((e.local, e.readonly))
            } else {
                seen_from(s, name, i - 1, wildcard, any_global || e.global)
            },
            None => seen_from(
                s,
                name,
                i - 1,
                if wildcard is Some {
                    wildcard
                } else {
                    Some(e.readonly)
                },
                true,
            ),
        }
    }
}

/// What `name` is in a scope.
pub open spec fn seen(s: Seq<Scoped>, name: Seq<u8>) -> Option<(bool, bool)> {
    seen_from(s, name, s.len() as int, None, false)
}

/// The lookup over the declarations and the walk over what it sees of them agree.
pub(crate) proof fn lemma_seen_from(decls: Seq<Declaration>, name: Seq<u8>, i: int, wildcard: Option<bool>, any_global: bool)
    requires
        i <= decls.len(),
    ensures
        seen_from(scope_of(decls), name, i, wildcard, any_global) == match lookup_from(decls, name, i, wildcard, any_global) {
            Resolution::Variable { readonly, .. } => Some((true, readonly)),
            Resolution::Global { readonly } => Some((false, readonly)),
            Resolution::Undeclared => None::<(bool, bool)>,
        },
    decreases i,
{
    if i > 0 {
        let d = decls[i - 1];
        assert(scope_of(decls)[i - 1] == scoped(d));
        match d.name {
            Some(declared) => if declared@ != name {
                lemma_seen_from(decls, name, i - 1, wildcard, any_global || d.is_global);
            },
            None => lemma_seen_from(
                decls,
                name,
                i - 1,
                if wildcard is Some {
                    wildcard
                } else {
                    Some(d.readonly)
                },
                true,
            ),
        }
    }
}

pub(crate) proof fn lemma_seen(decls: Seq<Declaration>, name: Seq<u8>)
    ensures
        seen(scope_of(decls), name) == match lookup_spec(decls, name) {
            Resolution::Variable { readonly, .. } => Some((true, readonly)),
            Resolution::Global { readonly } => Some((false, readonly)),
            Resolution::Undeclared => None::<(bool, bool)>,
        },
{
    lemma_seen_from(decls, name, decls.len() as int, None, false);
}

/// A declaration of a local named `name`.
pub(crate) open spec fn local_named(d: Declaration, name: Seq<u8>, readonly: bool) -> bool {
    &&& d.name matches Some(n) && n@ == name
    &&& d.at_owner is Some
    &&& !d.is_global
    &&& d.readonly == readonly
}

/// A declaration of a global named `name`, or of every name for `None`.
pub(crate) open spec fn global_named(d: Declaration, name: Option<Seq<u8>>, readonly: bool) -> bool {
    &&& match name {
        Some(name) => d.name matches Some(n) && n@ == name,
        None => d.name is None,
    }
    &&& d.at_owner is None
    &&& d.is_global
    &&& d.readonly == readonly
}

/// `_ENV`.
pub open spec fn env_name() -> Seq<u8> {
    "_ENV".spec_bytes()
}

/// Every expression that had a binding still has one.
pub(crate) open spec fn grows(before: Seq<Option<Binding>>, after: Seq<Option<Binding>>) -> bool {
    &&& after.len() == before.len()
    &&& forall|i: int| 0 <= i < before.len() && #[trigger] before[i] is Some ==> after[i] is Some
}

/// A capture list holds an upvalue that goes by `name`.
pub(crate) open spec fn holds_name<'s>(ups: Seq<(&'s [u8], Capture)>, name: Seq<u8>) -> bool {
    exists|j: int| 0 <= j < ups.len() && ups[j].0@ == name
}

/// `at` is the first upvalue of a capture list that goes by `name`.
pub(crate) open spec fn first_named<'s>(ups: Seq<(&'s [u8], Capture)>, name: Seq<u8>, at: int) -> bool {
    &&& 0 <= at < ups.len()
    &&& ups[at].0@ == name
    &&& forall|j: int| 0 <= j < at ==> ups[j].0@ != name
}

/// How the innermost of `functions` reaches a variable that the function `owner` holds as
/// `at_owner`: in that function itself, the same way; from a function nested in it, as the
/// first of its own upvalues that goes by the variable's name.
pub(crate) open spec fn reached<'s>(functions: Seq<FunctionFrame<'s>>, name: Seq<u8>, owner: int, at_owner: Access, access: Access) -> bool {
    if owner + 1 == functions.len() {
        access == at_owner
    } else {
        access matches Access::Upvalue(i) && exists|at: int|
            #![trigger first_named(functions.last().upvalues@, name, at)]
            first_named(functions.last().upvalues@, name, at) && i == at as u16
    }
}

/// A resolved variable of a function below `n` frames.
pub(crate) open spec fn resolution_in(r: Resolution, n: int) -> bool {
    r matches Resolution::Variable { owner, .. } ==> owner < n
}

proof fn lemma_lookup_owner(decls: Seq<Declaration>, name: Seq<u8>, i: int, wildcard: Option<bool>, any_global: bool, n: int)
    requires
        i <= decls.len(),
        forall|k: int| 0 <= k < decls.len() ==> #[trigger] decls[k].function < n,
    ensures
        resolution_in(lookup_from(decls, name, i, wildcard, any_global), n),
    decreases i,
{
    if i > 0 {
        let d = decls[i - 1];
        match d.name {
            Some(declared) => if declared@ != name {
                lemma_lookup_owner(decls, name, i - 1, wildcard, any_global || d.is_global, n);
            },
            None => lemma_lookup_owner(
                decls,
                name,
                i - 1,
                if wildcard is Some {
                    wildcard
                } else {
                    Some(d.readonly)
                },
                true,
                n,
            ),
        }
    }
}

impl<'a, 'src> Resolver<'a, 'src> {
    /// The declarations, as the lookup sees them.
    pub(crate) open spec fn decls(&self) -> Seq<Declaration<'src>> {
        self.declarations@
    }

    /// What `name` is, looking through the declarations from the last one back.
    pub(crate) fn lookup(&self, name: &[u8]) -> (r: Resolution)
        ensures
            r == lookup_spec(self.decls(), name@),
    {
        let mut wildcard: Option<bool> = None;
        let mut any_global = false;
        let mut i = self.declarations.len();
        while i > 0
            invariant
                i <= self.declarations@.len(),
                lookup_spec(self.decls(), name@) == lookup_from(self.decls(), name@, i as int, wildcard, any_global),
            decreases i,
        {
            let declaration = &self.declarations[i - 1];
            match declaration.name {
                Some(declared) => {
                    if crate::text::same_bytes(declared, name) {
                        let readonly = declaration.readonly;
                        return match declaration.at_owner {
                            Some(at_owner) => Resolution::Variable { at_owner, owner: declaration.function, readonly },
                            None => Resolution::Global { readonly },
                        };
                    }
                    any_global = any_global || declaration.is_global;
                },
                None => {
                    any_global = true;
                    if wildcard.is_none() {
                        wildcard = Some(declaration.readonly);
                    }
                },
            }
            i -= 1;
        }
        match wildcard {
            Some(readonly) => Resolution::Global { readonly },
            None => {
                if any_global {
                    Resolution::Undeclared
                } else {
                    Resolution::Global { readonly: false }
                }
            },
        }
    }
}

impl<'a, 'src> Resolver<'a, 'src> {
    /// The frames are as they were: as many blocks and functions, at the same heights, for
    /// the same functions.
    pub(crate) open spec fn same_frames(&self, before: Resolver<'a, 'src>) -> bool {
        &&& self.ast == before.ast
        &&& self.blocks@.len() == before.blocks@.len()
        &&& self.functions@.len() == before.functions@.len()
        &&& forall|j: int| 0 <= j < self.blocks@.len() ==> #[trigger] self.blocks@[j].declarations == before.blocks@[j].declarations
        &&& forall|k: int|
            0 <= k < self.functions@.len() ==> #[trigger] self.functions@[k].floor == before.functions@[k].floor
                && self.functions@[k].index == before.functions@[k].index
        &&& self.declarations@.len() >= before.declarations@.len()
        &&& forall|i: int| 0 <= i < before.declarations@.len() ==> #[trigger] self.declarations@[i] == before.declarations@[i]
        &&& grows(before.bindings.uses(), self.bindings.uses())
    }

    /// Declares a local of the innermost function, at a site of its own.
    pub(crate) fn declare_local(&mut self, name: &'src [u8], readonly: bool)
        requires
            old(self).wf(),
        ensures
            final(self).wf(),
            final(self).same_frames(*old(self)),
            final(self).declarations@.len() == old(self).declarations@.len() + 1,
            local_named(final(self).declarations@.last(), name@, readonly),
            final(self).bindings == old(self).bindings,
            final(self).blocks@.last().gotos == old(self).blocks@.last().gotos,
    {
        let var = VarId(self.next_var);
        self.next_var = self.next_var.wrapping_add(1);
        let function = self.functions.len() - 1;
        self.declarations.push(
            Declaration { name: Some(name), at_owner: Some(Access::Local(var)), function, is_global: false, readonly },
        );
        proof {
            self.lemma_pushed_declaration(*old(self));
        }
    }

    /// Declares a global name, or every name for `None`.
    pub(crate) fn declare_global(&mut self, name: Option<&'src [u8]>, readonly: bool)
        requires
            old(self).wf(),
        ensures
            final(self).wf(),
            final(self).same_frames(*old(self)),
            final(self).declarations@.len() == old(self).declarations@.len() + 1,
            global_named(final(self).declarations@.last(), match name {
                Some(n) => Some(n@),
                None => None,
            }, readonly),
            final(self).bindings == old(self).bindings,
            final(self).blocks@.last().gotos == old(self).blocks@.last().gotos,
    {
        let function = self.functions.len() - 1;
        self.declarations.push(Declaration { name, at_owner: None, function, is_global: true, readonly });
        proof {
            self.lemma_pushed_declaration(*old(self));
        }
    }

    /// One more declaration of the innermost function keeps the resolver well formed.
    proof fn lemma_pushed_declaration(&self, before: Resolver<'a, 'src>)
        requires
            before.wf(),
            self.ast == before.ast,
            self.blocks == before.blocks,
            self.functions == before.functions,
            self.bindings == before.bindings,
            self.declarations@.len() == before.declarations@.len() + 1,
            forall|i: int| 0 <= i < before.declarations@.len() ==> #[trigger] self.declarations@[i] == before.declarations@[i],
            self.declarations@.last().function == before.functions@.len() - 1,
        ensures
            self.wf(),
            self.same_frames(before),
    {
        let n = before.blocks@.len();
        assert forall|j: int| 0 <= j < n implies frame_ok(
            #[trigger] self.blocks@[j],
            self.height_above(j),
            self.ast.stats().len() as int,
        ) by {
            assert(frame_ok(before.blocks@[j], before.height_above(j), self.ast.stats().len() as int));
        }
        assert forall|i: int, k: int|
            #![trigger self.declarations@[i], self.functions@[k]]
            0 <= i < self.declarations@.len() && 0 < k < self.functions@.len() && i < self.blocks@[self.functions@[k].floor as int].declarations
                implies self.declarations@[i].function < k by {
            if i == before.declarations@.len() {
                assert(self.blocks@[self.functions@[k].floor as int].declarations <= before.declarations@.len());
            }
        }
    }

    /// Where that function keeps `name`, adding it to its capture list when it is not there.
    fn capture(&mut self, depth: usize, name: &'src [u8], capture: Capture) -> (index: u16)
        requires
            old(self).wf(),
            depth < old(self).functions@.len(),
        ensures
            final(self).wf(),
            final(self).same_frames(*old(self)),
            final(self).declarations == old(self).declarations,
            final(self).blocks == old(self).blocks,
            final(self).bindings == old(self).bindings,
            final(self).ast == old(self).ast,
            final(self).next_var == old(self).next_var,
            final(self).functions@.len() == old(self).functions@.len(),
            forall|k: int| 0 <= k < old(self).functions@.len() && k != depth ==> #[trigger] final(self).functions@[k] == old(self).functions@[k],
            final(self).functions@[depth as int].floor == old(self).functions@[depth as int].floor,
            final(self).functions@[depth as int].index == old(self).functions@[depth as int].index,
            holds_name(old(self).functions@[depth as int].upvalues@, name@) ==> final(self).functions@[depth as int].upvalues@
                == old(self).functions@[depth as int].upvalues@,
            !holds_name(old(self).functions@[depth as int].upvalues@, name@) ==> final(self).functions@[depth as int].upvalues@
                == old(self).functions@[depth as int].upvalues@.push((name, capture)),
            exists|at: int| first_named(final(self).functions@[depth as int].upvalues@, name@, at) && index == at as u16,
    {
        let count = self.functions[depth].upvalues.len();
        let mut i: usize = 0;
        while i < count
            invariant
                *self == *old(self),
                self.wf(),
                count == self.functions@[depth as int].upvalues@.len(),
                depth < self.functions@.len(),
                i <= count,
                forall|j: int| 0 <= j < i ==> self.functions@[depth as int].upvalues@[j].0@ != name@,
            decreases count - i,
        {
            let (known, _) = self.functions[depth].upvalues[i];
            if same_bytes(known, name) {
                proof {
                    assert(first_named(self.functions@[depth as int].upvalues@, name@, i as int));
                }
                return i as u16;
            }
            i += 1;
        }
        let ghost ups = self.functions@[depth as int].upvalues@;
        let mut frame = FunctionFrame { floor: 0, index: 0, upvalues: Vec::new() };
        self.functions.set_and_swap(depth, &mut frame);
        frame.upvalues.push((name, capture));
        let index = frame.upvalues.len() - 1;
        self.functions.set_and_swap(depth, &mut frame);
        proof {
            assert(!holds_name(ups, name@));
            assert(first_named(self.functions@[depth as int].upvalues@, name@, index as int));
            assert forall|k: int| 0 <= k < self.functions@.len() implies #[trigger] self.functions@[k].floor
                == old(self).functions@[k].floor && self.functions@[k].index == old(self).functions@[k].index by {}
        }
        index as u16
    }

    /// Makes a variable owned by an enclosing function reachable from the innermost one,
    /// capturing it through every function in between.
    #[verifier::spinoff_prover]
    #[verifier::rlimit(40)]
    fn reach(&mut self, name: &'src [u8], owner: usize, at_owner: Access) -> (access: Access)
        requires
            old(self).wf(),
            owner < old(self).functions@.len(),
        ensures
            final(self).wf(),
            final(self).same_frames(*old(self)),
            final(self).declarations == old(self).declarations,
            final(self).blocks == old(self).blocks,
            final(self).bindings == old(self).bindings,
            owner + 1 == old(self).functions@.len() ==> access == at_owner,
            forall|d: int| owner < d < final(self).functions@.len() ==> holds_name(#[trigger] final(self).functions@[d].upvalues@, name@),
            owner + 1 < old(self).functions@.len() ==> (access matches Access::Upvalue(i) && exists|at: int|
                #![trigger first_named(final(self).functions@.last().upvalues@, name@, at)]
                first_named(final(self).functions@.last().upvalues@, name@, at) && i == at as u16),
    {
        let mut access = at_owner;
        let count = self.functions.len();
        assert(owner < count);
        let mut depth = owner + 1;
        while depth < self.functions.len()
            invariant
                self.wf(),
                self.same_frames(*old(self)),
                self.declarations == old(self).declarations,
                self.blocks == old(self).blocks,
                self.bindings == old(self).bindings,
                owner + 1 <= depth <= self.functions@.len(),
                depth == owner + 1 ==> access == at_owner,
                forall|d: int| owner < d < depth ==> holds_name(#[trigger] self.functions@[d].upvalues@, name@),
                depth > owner + 1 ==> (access matches Access::Upvalue(i) && exists|at: int|
                    #![trigger first_named(self.functions@[depth - 1].upvalues@, name@, at)]
                    first_named(self.functions@[depth - 1].upvalues@, name@, at) && i == at as u16),
            decreases self.functions@.len() - depth,
        {
            let capture = match access {
                Access::Local(var) => Capture::ParentLocal(var),
                Access::Upvalue(index) => Capture::ParentUpvalue(index),
            };
            let ghost prior = *self;
            let index = self.capture(depth, name, capture);
            access = Access::Upvalue(index);
            proof {
                assert forall|d: int| owner < d < depth + 1 implies holds_name(#[trigger] self.functions@[d].upvalues@, name@) by {
                    if d < depth {
                        assert(self.functions@[d] == prior.functions@[d]);
                    } else {
                        let at = choose|at: int| #![trigger first_named(self.functions@[depth as int].upvalues@, name@, at)] first_named(self.functions@[depth as int].upvalues@, name@, at) && index == at as u16;
                        assert(self.functions@[d].upvalues@[at].0@ == name@);
                    }
                }
            }
            let ghost at = choose|at: int| #![trigger first_named(self.functions@[depth as int].upvalues@, name@, at)] first_named(self.functions@[depth as int].upvalues@, name@, at) && index == at as u16;
            depth += 1;
            proof {
                assert(first_named(self.functions@[depth - 1].upvalues@, name@, at));
            }
        }
        proof {
            if owner + 1 < self.functions@.len() {
                let i = access->Upvalue_0;
                let at = choose|at: int| #![trigger first_named(self.functions@[depth - 1].upvalues@, name@, at)] first_named(self.functions@[depth - 1].upvalues@, name@, at) && i == at as u16;
                assert(self.functions@.last() == self.functions@[depth - 1]);
                assert(first_named(self.functions@.last().upvalues@, name@, at));
            }
        }
        access
    }

    /// One access to the name written at `id`, and the three ways it is refused, checked in
    /// this order: a name no declaration allows, a global while `_ENV` is itself a global,
    /// and a write to a read-only name.
    pub(crate) fn access(&mut self, id: ExprId, name: &'src [u8], at: u32, writing: bool) -> (r: Result<(), Error>)
        requires
            old(self).wf(),
            id.id() < old(self).ast.exprs().len(),
            old(self).ast.exprs()[id.id()].kind is Name,
        ensures
            r is Ok ==> final(self).wf() && final(self).same_frames(*old(self)),
            r is Ok ==> final(self).declarations == old(self).declarations && final(self).blocks == old(self).blocks,
            final(self).bindings.jumps() == old(self).bindings.jumps(),
            final(self).bindings.envs() == old(self).bindings.envs(),
            final(self).bindings.uses().len() == old(self).bindings.uses().len(),
            r is Ok ==> forall|i: int|
                0 <= i < old(self).bindings.uses().len() && i != id.id() ==> #[trigger] final(self).bindings.uses()[i]
                    == old(self).bindings.uses()[i],
            r is Ok ==> match lookup_spec(old(self).decls(), name@) {
                Resolution::Variable { .. } => final(self).bindings.uses()[id.id()] matches Some(Binding::Variable(_)),
                _ => final(self).bindings.uses()[id.id()] matches Some(Binding::Global(_)),
            },
            writing && match lookup_spec(old(self).decls(), name@) {
                Resolution::Variable { readonly, .. } => readonly,
                Resolution::Global { readonly } => readonly,
                Resolution::Undeclared => true,
            } ==> r is Err,
            lookup_spec(old(self).decls(), name@) is Undeclared ==> (r matches Err(e) && (e.kind matches ErrorKind::VariableNotDeclared(
                n,
            ) && n@ == name@)),
            lookup_spec(old(self).decls(), name@) is Global && !(lookup_spec(old(self).decls(), env_name()) is Variable) ==> (r matches Err(
                e,
            ) && (e.kind matches ErrorKind::EnvIsGlobal(n) && n@ == name@)),
            r is Err ==> lookup_spec(old(self).decls(), name@) is Undeclared || (lookup_spec(old(self).decls(), name@) is Global
                && !(lookup_spec(old(self).decls(), env_name()) is Variable)) || (writing && match lookup_spec(
                old(self).decls(),
                name@,
            ) {
                Resolution::Variable { readonly, .. } => readonly,
                Resolution::Global { readonly } => readonly,
                Resolution::Undeclared => false,
            }),
            r matches Err(e) ==> (lookup_spec(old(self).decls(), name@) is Undeclared || (lookup_spec(old(self).decls(), name@) is Global
                && !(lookup_spec(old(self).decls(), env_name()) is Variable)) || (e.kind matches ErrorKind::ConstAssignment(n)
                && n@ == name@)),
            r is Ok ==> match final(self).bindings.uses()[id.id()] {
                Some(Binding::Variable(access)) => lookup_spec(old(self).decls(), name@) matches Resolution::Variable {
                    at_owner,
                    owner,
                    ..
                } && reached(final(self).functions@, name@, owner as int, at_owner, access),
                Some(Binding::Global(access)) => lookup_spec(old(self).decls(), env_name()) matches Resolution::Variable {
                    at_owner,
                    owner,
                    ..
                } && reached(final(self).functions@, env_name(), owner as int, at_owner, access),
                None => false,
            },
    {
        proof {
            lemma_lookup_owner(self.decls(), name@, self.decls().len() as int, None, false, self.functions@.len() as int);
            lemma_lookup_owner(self.decls(), env_name(), self.decls().len() as int, None, false, self.functions@.len() as int);
        }
        let (binding, readonly) = match self.lookup(name) {
            Resolution::Undeclared => {
                return Err(error(ErrorKind::VariableNotDeclared(vstd::slice::slice_to_vec(name)), at));
            },
            Resolution::Global { readonly } => {
                let env = "_ENV".as_bytes();
                match self.lookup(env) {
                    Resolution::Variable { at_owner, owner, .. } => {
                        let access = self.reach(env, owner, at_owner);
                        (Binding::Global(access), readonly)
                    },
                    _ => {
                        return Err(error(ErrorKind::EnvIsGlobal(vstd::slice::slice_to_vec(name)), at));
                    },
                }
            },
            Resolution::Variable { at_owner, owner, readonly } => {
                let access = self.reach(name, owner, at_owner);
                (Binding::Variable(access), readonly)
            },
        };
        if writing && readonly {
            return Err(error(ErrorKind::ConstAssignment(vstd::slice::slice_to_vec(name)), at));
        }
        let ghost before = self.bindings.uses();
        self.bindings.record(id, binding);
        proof {
            reveal(names_only);
            assert(names_only(self.bindings.uses(), self.ast.exprs())) by {
                assert forall|i: int| 0 <= i < self.bindings.uses().len() && #[trigger] self.bindings.uses()[i] is Some implies i
                    < self.ast.exprs().len() && self.ast.exprs()[i].kind is Name by {
                    if i != id.id() {
                        assert(before[i] is Some);
                    }
                }
            }
        }
        Ok(())
    }
}

/// The scope a chunk starts in: `_ENV`, a local of the chunk's own function.
pub open spec fn chunk_scope() -> Seq<Scoped> {
    seq![Scoped { name: Some(env_name()), local: true, global: false, readonly: false }]
}

/// Walks a parsed chunk, refusing the first name it cannot justify: a chunk that reads or
/// writes a refused name anywhere in it, the bodies of its functions included, is refused;
/// a chunk is refused for anything but its labels only so; and in a chunk that is accepted
/// every name read or written is bound.
pub fn resolve(ast: &Ast<'_>) -> (r: Result<Bindings, Error>)
    requires
        ast.wf(),
    ensures
        crate::scope::stat::block_refused(*ast, chunk_scope(), ast.main_id().id()) ==> r is Err,
        r matches Err(e) ==> crate::scope::stat::label_error(e.kind) || crate::scope::stat::block_refused(
            *ast,
            chunk_scope(),
            ast.main_id().id(),
        ),
        r matches Ok(bindings) ==> crate::scope::stat::block_bound(*ast, bindings.uses(), ast.main_id().id()),
        r matches Ok(bindings) ==> bindings.uses().len() == ast.exprs().len() && bindings.jumps().len() == ast.stats().len()
            && bindings.envs().len() == ast.stats().len() && bindings.funcs().len() == ast.funcs().len() + 1,
        r matches Ok(bindings) ==> names_only(bindings.uses(), ast.exprs()),
{
    let env = "_ENV".as_bytes();
    let mut declarations: Vec<Declaration> = Vec::new();
    declarations.push(
        Declaration { name: Some(env), at_owner: Some(Access::Upvalue(0)), function: 0, is_global: false, readonly: false },
    );
    let mut upvalues: Vec<(&[u8], Capture)> = Vec::new();
    upvalues.push((env, Capture::Env));
    let mut functions: Vec<FunctionFrame> = Vec::new();
    functions.push(FunctionFrame { floor: 0, index: 0, upvalues });
    // The chunk is a function, which is why a goto at its top level is refused at its end.
    let mut blocks: Vec<BlockFrame> = Vec::new();
    blocks.push(BlockFrame { declarations: 1, labels: Vec::new(), gotos: Vec::new() });
    let bindings = Bindings::new(ast.expr_count(), ast.stat_count(), ast.func_count() + 1);
    proof {
        reveal(names_only);
    }
    let mut resolver = Resolver { ast, declarations, blocks, functions, bindings, next_var: 0 };
    proof {
        assert(scope_of(resolver.declarations@) =~= chunk_scope());
    }
    let main = ast.main_block_id();
    resolver.stats(main, true)?;
    resolver.leave_function(ast.block(main).span.end)?;
    Ok(resolver.bindings)
}

/// Scope errors never carry a `near` clause.
pub(crate) fn error(kind: ErrorKind, at: u32) -> (e: Error)
    ensures
        e.kind == kind,
        e.at == at,
        e.near == Near::Absent,
{
    Error { kind, at, near: Near::Absent }
}

} // verus!
