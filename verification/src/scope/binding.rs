//! What each name turned out to name.
use vstd::prelude::*;

use crate::ast::{ExprId, FuncId, StatId};

verus! {

/// A local's declaration site, numbered in the order the resolver meets them.
#[derive(Debug, Clone, Copy, PartialEq, Eq, Structural)]
pub struct VarId(pub(crate) u32);

impl VarId {
    pub open(crate) spec fn id(self) -> int {
        self.0 as int
    }
}

/// Where a value lives, relative to the function that reads it.
#[derive(Debug, Clone, Copy, PartialEq, Eq, Structural)]
pub enum Access {
    /// A local of that function, declared at this site.
    Local(VarId),
    /// An upvalue of that function, by index into its capture list.
    Upvalue(u16),
}

/// What one written name resolves to.
#[derive(Debug, Clone, Copy, PartialEq, Eq, Structural)]
pub enum Binding {
    /// The name is that variable.
    Variable(Access),
    /// The name is a field of `_ENV`, which is itself reached this way.
    Global(Access),
}

/// Where one upvalue's value comes from, named in the enclosing function's terms.
#[derive(Debug, Clone, Copy, PartialEq, Eq, Structural)]
pub enum Capture {
    ParentLocal(VarId),
    ParentUpvalue(u16),
    /// `_ENV`, which the loader supplies. Only the outermost function has one.
    Env,
}

/// One upvalue: the name the body first asked for it by, and where its value comes from.
#[derive(Debug)]
pub struct Upvalue {
    pub name: Vec<u8>,
    pub capture: Capture,
}

#[derive(Debug)]
pub struct FunctionBindings {
    /// One entry per upvalue, in the order the body first referred to it.
    pub upvalues: Vec<Upvalue>,
}

/// Every name in a chunk, answered.
#[derive(Debug)]
pub struct Bindings {
    uses: Vec<Option<Binding>>,
    jumps: Vec<Option<StatId>>,
    envs: Vec<Option<Access>>,
    funcs: Vec<FunctionBindings>,
}

impl Bindings {
    pub closed spec fn uses(&self) -> Seq<Option<Binding>> {
        self.uses@
    }

    pub closed spec fn jumps(&self) -> Seq<Option<StatId>> {
        self.jumps@
    }

    pub closed spec fn envs(&self) -> Seq<Option<Access>> {
        self.envs@
    }

    pub closed spec fn funcs(&self) -> Seq<FunctionBindings> {
        self.funcs@
    }

    /// What the name written at this expression resolves to, or `None` when the expression is
    /// not a name.
    pub fn at(&self, id: ExprId) -> (binding: Option<Binding>)
        requires
            id.id() < self.uses().len(),
        ensures
            binding == self.uses()[id.id()],
    {
        self.uses[id.0 as usize]
    }

    /// The label statement this goto reaches, or `None` when the statement is not a goto.
    pub fn target(&self, goto: StatId) -> (label: Option<StatId>)
        requires
            goto.id() < self.jumps().len(),
        ensures
            label == self.jumps()[goto.id()],
    {
        self.jumps[goto.0 as usize]
    }

    /// How the function reaches `_ENV` where this statement assigns a global. A `global`
    /// declaration without an initializer assigns nothing and needs none.
    pub fn env(&self, stat: StatId) -> (access: Option<Access>)
        requires
            stat.id() < self.envs().len(),
        ensures
            access == self.envs()[stat.id()],
    {
        self.envs[stat.0 as usize]
    }

    /// The outermost function, the one a chunk itself is.
    pub fn main(&self) -> (main: &FunctionBindings)
        requires
            self.funcs().len() > 0,
        ensures
            *main == self.funcs()[0],
    {
        &self.funcs[0]
    }

    pub fn function(&self, id: FuncId) -> (function: &FunctionBindings)
        requires
            id.id() + 1 < self.funcs().len(),
        ensures
            *function == self.funcs()[id.id() + 1],
    {
        let count = self.funcs.len();
        assert(id.0 + 1 < count);
        &self.funcs[id.0 as usize + 1]
    }

    /// Every local that some function captures, function by function in the order of the
    /// capture lists. A declaration site belongs to one function, so an id here is captured
    /// out of the function that declares it.
    pub fn captured(&self) -> (vars: Vec<VarId>)
        ensures
            vars@ == captured_vars(self.funcs()),
    {
        let mut vars: Vec<VarId> = Vec::new();
        let mut f: usize = 0;
        while f < self.funcs.len()
            invariant
                f <= self.funcs@.len(),
                vars@ == captured_vars(self.funcs@.take(f as int)),
            decreases self.funcs@.len() - f,
        {
            let upvalues = &self.funcs[f].upvalues;
            let ghost before = vars@;
            let mut u: usize = 0;
            while u < upvalues.len()
                invariant
                    f < self.funcs@.len(),
                    *upvalues == self.funcs@[f as int].upvalues,
                    u <= upvalues@.len(),
                    vars@ == before + captured_of(upvalues@.take(u as int)),
                decreases upvalues@.len() - u,
            {
                if let Capture::ParentLocal(var) = upvalues[u].capture {
                    vars.push(var);
                }
                proof {
                    assert(upvalues@.take(u + 1).drop_last() =~= upvalues@.take(u as int));
                }
                u += 1;
            }
            proof {
                assert(upvalues@.take(upvalues@.len() as int) =~= upvalues@);
                assert(self.funcs@.take(f + 1).drop_last() =~= self.funcs@.take(f as int));
            }
            f += 1;
        }
        proof {
            assert(self.funcs@.take(self.funcs@.len() as int) =~= self.funcs@);
        }
        vars
    }

    /// Room for what a chunk of these sizes resolves to, with nothing resolved yet.
    pub(crate) fn new(exprs: usize, stats: usize, funcs: usize) -> (bindings: Bindings)
        ensures
            bindings.uses().len() == exprs,
            bindings.jumps().len() == stats,
            bindings.envs().len() == stats,
            bindings.funcs().len() == funcs,
            forall|i: int| 0 <= i < exprs ==> bindings.uses()[i] is None,
            forall|i: int| 0 <= i < stats ==> bindings.jumps()[i] is None,
            forall|i: int| 0 <= i < stats ==> bindings.envs()[i] is None,
            forall|i: int| 0 <= i < funcs ==> bindings.funcs()[i].upvalues@.len() == 0,
    {
        let mut uses: Vec<Option<Binding>> = Vec::new();
        while uses.len() < exprs
            invariant
                uses@.len() <= exprs,
                forall|i: int| 0 <= i < uses@.len() ==> uses@[i] is None,
            decreases exprs - uses@.len(),
        {
            uses.push(None);
        }
        let mut jumps: Vec<Option<StatId>> = Vec::new();
        let mut envs: Vec<Option<Access>> = Vec::new();
        while jumps.len() < stats
            invariant
                jumps@.len() <= stats,
                envs@.len() == jumps@.len(),
                forall|i: int| 0 <= i < jumps@.len() ==> jumps@[i] is None,
                forall|i: int| 0 <= i < envs@.len() ==> envs@[i] is None,
            decreases stats - jumps@.len(),
        {
            jumps.push(None);
            envs.push(None);
        }
        let mut functions: Vec<FunctionBindings> = Vec::new();
        while functions.len() < funcs
            invariant
                functions@.len() <= funcs,
                forall|i: int| 0 <= i < functions@.len() ==> functions@[i].upvalues@.len() == 0,
            decreases funcs - functions@.len(),
        {
            functions.push(FunctionBindings { upvalues: Vec::new() });
        }
        Bindings { uses, jumps, envs, funcs: functions }
    }

    pub(crate) fn record(&mut self, id: ExprId, binding: Binding)
        requires
            id.id() < old(self).uses().len(),
        ensures
            final(self).uses() == old(self).uses().update(id.id(), Some(binding)),
            final(self).jumps() == old(self).jumps(),
            final(self).envs() == old(self).envs(),
            final(self).funcs() == old(self).funcs(),
    {
        self.uses.set(id.0 as usize, Some(binding));
    }

    pub(crate) fn record_jump(&mut self, goto: StatId, label: StatId)
        requires
            goto.id() < old(self).jumps().len(),
        ensures
            final(self).jumps() == old(self).jumps().update(goto.id(), Some(label)),
            final(self).uses() == old(self).uses(),
            final(self).envs() == old(self).envs(),
            final(self).funcs() == old(self).funcs(),
    {
        self.jumps.set(goto.0 as usize, Some(label));
    }

    pub(crate) fn record_env(&mut self, stat: StatId, access: Access)
        requires
            stat.id() < old(self).envs().len(),
        ensures
            final(self).envs() == old(self).envs().update(stat.id(), Some(access)),
            final(self).uses() == old(self).uses(),
            final(self).jumps() == old(self).jumps(),
            final(self).funcs() == old(self).funcs(),
    {
        self.envs.set(stat.0 as usize, Some(access));
    }

    pub(crate) fn set_upvalues(&mut self, index: usize, upvalues: Vec<Upvalue>)
        requires
            index < old(self).funcs().len(),
        ensures
            final(self).funcs().len() == old(self).funcs().len(),
            final(self).funcs()[index as int].upvalues == upvalues,
            forall|i: int| 0 <= i < old(self).funcs().len() && i != index ==> final(self).funcs()[i] == old(self).funcs()[i],
            final(self).uses() == old(self).uses(),
            final(self).jumps() == old(self).jumps(),
            final(self).envs() == old(self).envs(),
    {
        let mut function = FunctionBindings { upvalues };
        self.funcs.set_and_swap(index, &mut function);
    }
}

/// The locals a list of upvalues captures from the enclosing function, in order.
pub open spec fn captured_of(upvalues: Seq<Upvalue>) -> Seq<VarId>
    decreases upvalues.len(),
{
    if upvalues.len() == 0 {
        Seq::empty()
    } else {
        captured_of(upvalues.drop_last()) + match upvalues.last().capture {
            Capture::ParentLocal(var) => seq![var],
            _ => Seq::empty(),
        }
    }
}

/// The locals every function captures, function by function.
pub open spec fn captured_vars(funcs: Seq<FunctionBindings>) -> Seq<VarId>
    decreases funcs.len(),
{
    if funcs.len() == 0 {
        Seq::empty()
    } else {
        captured_vars(funcs.drop_last()) + captured_of(funcs.last().upvalues@)
    }
}

} // verus!
