//! Block and function frames, and the labels they hold.
use vstd::prelude::*;

use super::binding::{Binding, Capture, Upvalue};
use super::resolver::{error, Declaration, Resolver};
use crate::ast::{Expr, StatId};
use crate::error::{Error, ErrorKind, Near};
use crate::text::same_bytes;

verus! {

pub(crate) struct BlockFrame<'src> {
    /// How tall the declaration stack was when the block opened.
    pub(crate) declarations: usize,
    pub(crate) labels: Vec<Label<'src>>,
    /// Gotos that have not found a label yet. Settled when the block closes.
    pub(crate) gotos: Vec<Goto<'src>>,
}

#[derive(Clone, Copy)]
pub(crate) struct Label<'src> {
    pub(crate) name: &'src [u8],
    /// The offset a later collision names by line.
    pub(crate) at: u32,
    /// How many declarations are alive where the label sits.
    pub(crate) declarations: usize,
    /// The label statement.
    pub(crate) stat: StatId,
}

#[derive(Clone, Copy)]
pub(crate) struct Goto<'src> {
    pub(crate) name: &'src [u8],
    /// The offset the message names by line.
    pub(crate) at: u32,
    /// How many declarations were alive where the goto was written.
    pub(crate) declarations: usize,
    /// The goto statement.
    pub(crate) stat: StatId,
}

/// One function being resolved.
pub(crate) struct FunctionFrame<'src> {
    /// Where its outermost block sits on the block stack.
    pub(crate) floor: usize,
    /// Which function it is: 0 for the chunk, one past its id for any other.
    pub(crate) index: usize,
    /// What it captures so far, by the name the body first asked for, in that order.
    pub(crate) upvalues: Vec<(&'src [u8], Capture)>,
}

/// A frame's labels and gotos stand at most `height` declarations high, and name statements
/// below `n`.
pub(crate) open spec fn frame_ok(frame: BlockFrame, height: int, n: int) -> bool {
    &&& forall|l: int| 0 <= l < frame.labels@.len() ==> #[trigger] frame.labels@[l].declarations <= height
        && frame.labels@[l].stat.id() < n
    &&& forall|g: int| 0 <= g < frame.gotos@.len() ==> #[trigger] frame.gotos@[g].declarations <= height
        && frame.gotos@[g].stat.id() < n
}

/// The first label of `labels` named `name`, if any.
pub(crate) open spec fn label_named(labels: Seq<Label>, name: Seq<u8>) -> Option<int> {
    if exists|l: int| 0 <= l < labels.len() && labels[l].name@ == name {
        Some(choose|l: int| 0 <= l < labels.len() && labels[l].name@ == name && forall|m: int| 0 <= m < l ==> labels[m].name@ != name)
    } else {
        None
    }
}

/// Only a name has a binding.
#[verifier::opaque]
pub open spec fn names_only(uses: Seq<Option<Binding>>, exprs: Seq<Expr>) -> bool {
    forall|i: int| 0 <= i < uses.len() && #[trigger] uses[i] is Some ==> i < exprs.len() && exprs[i].kind is Name
}

impl<'a, 'src> Resolver<'a, 'src> {
    /// The height the declaration stack may reach for the labels and gotos of block `j`: the
    /// height where the next block opened, or the whole stack for the innermost one.
    pub(crate) open spec fn height_above(&self, j: int) -> int {
        if j + 1 < self.blocks@.len() {
            self.blocks@[j + 1].declarations as int
        } else {
            self.declarations@.len() as int
        }
    }

    /// The resolver is well formed: its results have room for every node, every function
    /// frame has its outermost block on the stack, every declaration belongs to an open
    /// function (one that opened before the declaration did), and the block heights, labels
    /// and gotos stand within the declaration stack.
    pub(crate) open spec fn wf(&self) -> bool {
        let decls = self.declarations@;
        let blocks = self.blocks@;
        let fns = self.functions@;
        &&& self.ast.wf()
        &&& self.bindings.uses().len() == self.ast.exprs().len()
        &&& self.bindings.jumps().len() == self.ast.stats().len()
        &&& self.bindings.envs().len() == self.ast.stats().len()
        &&& self.bindings.funcs().len() == self.ast.funcs().len() + 1
        &&& fns.len() >= 1
        &&& fns[0].floor == 0
        &&& forall|k: int| 0 <= k < fns.len() ==> #[trigger] fns[k].floor < blocks.len() && fns[k].index < self.bindings.funcs().len()
        &&& forall|k: int, j: int| 0 <= k < j < fns.len() ==> #[trigger] fns[k].floor < #[trigger] fns[j].floor
        &&& forall|i: int| 0 <= i < decls.len() ==> #[trigger] decls[i].function < fns.len()
        &&& forall|i: int, k: int|
            #![trigger decls[i], fns[k]]
            0 <= i < decls.len() && 0 < k < fns.len() && i < blocks[fns[k].floor as int].declarations ==> decls[i].function < k
        &&& forall|j: int| 0 <= j < blocks.len() ==> #[trigger] blocks[j].declarations <= decls.len()
        &&& forall|j1: int, j2: int| 0 <= j1 <= j2 < blocks.len() ==> #[trigger] blocks[j1].declarations <= #[trigger] blocks[j2].declarations
        &&& forall|j: int| 0 <= j < blocks.len() ==> frame_ok(#[trigger] blocks[j], self.height_above(j), self.ast.stats().len() as int)
        &&& names_only(self.bindings.uses(), self.ast.exprs())
    }

    pub(crate) fn enter_block(&mut self)
        requires
            old(self).wf(),
        ensures
            final(self).wf(),
            final(self).ast == old(self).ast,
            final(self).declarations@ == old(self).declarations@,
            final(self).functions@ == old(self).functions@,
            final(self).bindings == old(self).bindings,
            final(self).next_var == old(self).next_var,
            final(self).blocks@.len() == old(self).blocks@.len() + 1,
            forall|j: int| 0 <= j < old(self).blocks@.len() ==> #[trigger] final(self).blocks@[j] == old(self).blocks@[j],
            final(self).blocks@.last().declarations == old(self).declarations@.len(),
    {
        let frame = BlockFrame { declarations: self.declarations.len(), labels: Vec::new(), gotos: Vec::new() };
        self.blocks.push(frame);
    }
}

/// The first label of `labels` named `name`.
pub(crate) fn find_label(labels: &Vec<Label>, name: &[u8]) -> (found: Option<usize>)
    ensures
        match found {
            Some(l) => l < labels@.len() && labels@[l as int].name@ == name@ && forall|m: int| 0 <= m < l ==> labels@[m].name@ != name@,
            None => forall|m: int| 0 <= m < labels@.len() ==> labels@[m].name@ != name@,
        },
{
    let mut l: usize = 0;
    while l < labels.len()
        invariant
            l <= labels@.len(),
            forall|m: int| 0 <= m < l ==> labels@[m].name@ != name@,
        decreases labels@.len() - l,
    {
        if same_bytes(labels[l].name, name) {
            return Some(l);
        }
        l += 1;
    }
    None
}

/// Whether some label of `labels` is named `name`.
pub(crate) open spec fn has_label(labels: Seq<Label>, name: Seq<u8>) -> bool {
    exists|m: int| 0 <= m < labels.len() && labels[m].name@ == name
}

/// Goto `g` of a closing block finds its label there, and that label sees a declaration the
/// goto does not: the jump would enter its scope.
pub(crate) open spec fn jumps_in(frame: BlockFrame, g: int) -> bool {
    label_named(frame.labels@, frame.gotos@[g].name@) matches Some(l) && frame.labels@[l].declarations > frame.gotos@[g].declarations
}

/// Goto `g` of a closing function's outermost block finds no label anywhere in it.
pub(crate) open spec fn lost(frame: BlockFrame, g: int) -> bool {
    !has_label(frame.labels@, frame.gotos@[g].name@)
}

/// The first goto, in order, for which `bad` holds is `g`.
pub(crate) open spec fn first_jump_in(frame: BlockFrame, g: int) -> bool {
    0 <= g < frame.gotos@.len() && jumps_in(frame, g) && forall|h: int| 0 <= h < g ==> !jumps_in(frame, h)
}

pub(crate) open spec fn first_lost(frame: BlockFrame, g: int) -> bool {
    0 <= g < frame.gotos@.len() && lost(frame, g) && forall|h: int| 0 <= h < g ==> !lost(frame, h)
}

/// The name a message gives the declaration a jump would skip: `*` for `global *`.
pub(crate) open spec fn declared_name(decls: Seq<Declaration>, i: int) -> Seq<u8> {
    match decls[i].name {
        Some(name) => name@,
        None => seq![0x2au8],
    }
}

/// The refusal closing a block gives, reported where it closes: the first goto that would
/// jump into the scope of a declaration, naming that declaration; failing that, where a
/// function closes, the first goto that found no label.
pub(crate) open spec fn refusal(frame: BlockFrame, function: bool, decls: Seq<Declaration>, close_at: u32, e: Error) -> bool {
    &&& e.at == close_at
    &&& e.near == Near::Absent
    &&& if exists|g: int| 0 <= g < frame.gotos@.len() && #[trigger] jumps_in(frame, g) {
        exists|g: int|
            #![trigger first_jump_in(frame, g)]
            first_jump_in(frame, g) && (e.kind matches ErrorKind::JumpIntoScope { label, goto_at, variable } && label@
                == frame.gotos@[g].name@ && goto_at == frame.gotos@[g].at && variable@ == declared_name(
                decls,
                frame.gotos@[g].declarations as int,
            ))
    } else {
        exists|g: int|
            #![trigger first_lost(frame, g)]
            first_lost(frame, g) && (e.kind matches ErrorKind::NoVisibleLabel { name, goto_at } && name@ == frame.gotos@[g].name@
                && goto_at == frame.gotos@[g].at)
    }
}

/// A closing block's gotos can be settled: no goto whose label is here jumps into the scope
/// of a declaration that label sees, and, where a function is closing, every goto finds its
/// label here.
pub(crate) open spec fn settles(frame: BlockFrame, function: bool) -> bool {
    &&& forall|g: int, l: int|
        0 <= g < frame.gotos@.len() && label_named(frame.labels@, frame.gotos@[g].name@) == Some(l) ==> #[trigger] frame.labels@[l].declarations
            <= #[trigger] frame.gotos@[g].declarations
    &&& function ==> forall|g: int| 0 <= g < frame.gotos@.len() ==> has_label(frame.labels@, #[trigger] frame.gotos@[g].name@)
}

impl<'a, 'src> Resolver<'a, 'src> {
    /// Settles the gotos of a closing block against its labels: a goto into the scope of a
    /// declaration the label sees is refused, one that found its label is recorded, and the
    /// rest escape to the enclosing block, or are refused when a function is closing.
    fn settle(&mut self, frame: &BlockFrame<'src>, close_at: u32, function: bool) -> (r: Result<Vec<Goto<'src>>, Error>)
        requires
            frame_ok(*frame, old(self).declarations@.len() as int, old(self).bindings.jumps().len() as int),
        ensures
            final(self).declarations == old(self).declarations,
            final(self).blocks == old(self).blocks,
            final(self).functions == old(self).functions,
            final(self).ast == old(self).ast,
            final(self).next_var == old(self).next_var,
            final(self).bindings.uses() == old(self).bindings.uses(),
            final(self).bindings.envs() == old(self).bindings.envs(),
            final(self).bindings.funcs() == old(self).bindings.funcs(),
            final(self).bindings.jumps().len() == old(self).bindings.jumps().len(),
            r is Ok <==> settles(*frame, function),
            r matches Err(e) ==> refusal(*frame, function, old(self).declarations@, close_at, e),
            r matches Ok(escaping) ==> forall|e: int|
                0 <= e < escaping@.len() ==> #[trigger] escaping@[e].declarations <= frame.declarations
                    && escaping@[e].stat.id() < old(self).bindings.jumps().len() && !has_label(frame.labels@, escaping@[e].name@),
            r is Ok && function ==> forall|g: int|
                0 <= g < frame.gotos@.len() ==> has_label(frame.labels@, #[trigger] frame.gotos@[g].name@),
            r is Ok ==> forall|g: int, l: int|
                0 <= g < frame.gotos@.len() && label_named(frame.labels@, frame.gotos@[g].name@) == Some(l) ==> #[trigger] frame.labels@[l].declarations
                    <= #[trigger] frame.gotos@[g].declarations,
    {
        let mut g: usize = 0;
        while g < frame.gotos.len()
            invariant
                frame_ok(*frame, self.declarations@.len() as int, self.bindings.jumps().len() as int),
                self.declarations == old(self).declarations,
                self.blocks == old(self).blocks,
                self.functions == old(self).functions,
                self.ast == old(self).ast,
                self.next_var == old(self).next_var,
                self.bindings.uses() == old(self).bindings.uses(),
                self.bindings.envs() == old(self).bindings.envs(),
                self.bindings.funcs() == old(self).bindings.funcs(),
                self.bindings.jumps().len() == old(self).bindings.jumps().len(),
                g <= frame.gotos@.len(),
                forall|h: int, l: int|
                    0 <= h < g && label_named(frame.labels@, frame.gotos@[h].name@) == Some(l) ==> #[trigger] frame.labels@[l].declarations
                        <= #[trigger] frame.gotos@[h].declarations,
                forall|h: int| 0 <= h < g ==> !#[trigger] jumps_in(*frame, h),
            decreases frame.gotos@.len() - g,
        {
            let goto = frame.gotos[g];
            if let Some(l) = find_label(&frame.labels, goto.name) {
                let label = frame.labels[l];
                proof {
                    assert(label_named(frame.labels@, goto.name@) == Some(l as int)) by {
                        let c = choose|c: int| 0 <= c < frame.labels@.len() && frame.labels@[c].name@ == goto.name@ && forall|m: int| 0 <= m < c ==> frame.labels@[m].name@ != goto.name@;
                        if c < l {
                        } else if c > l {
                            assert(frame.labels@[l as int].name@ == goto.name@);
                        }
                    }
                }
                if label.declarations > goto.declarations {
                    let mut variable: Vec<u8> = Vec::new();
                    match self.declarations[goto.declarations].name {
                        Some(name) => {
                            variable = vstd::slice::slice_to_vec(name);
                        },
                        None => {
                            variable.push(0x2a);
                            assert(variable@ =~= seq![0x2au8]);
                        },
                    }
                    proof {
                        assert(jumps_in(*frame, g as int));
                        assert(first_jump_in(*frame, g as int));
                    }
                    return Err(
                        error(
                            ErrorKind::JumpIntoScope {
                                label: vstd::slice::slice_to_vec(goto.name),
                                goto_at: goto.at,
                                variable,
                            },
                            close_at,
                        ),
                    );
                }
                self.bindings.record_jump(goto.stat, label.stat);
            } else {
                proof {
                    assert(label_named(frame.labels@, goto.name@) is None);
                }
            }
            g += 1;
        }
        let mut escaping: Vec<Goto<'src>> = Vec::new();
        let mut g: usize = 0;
        while g < frame.gotos.len()
            invariant
                frame_ok(*frame, self.declarations@.len() as int, self.bindings.jumps().len() as int),
                self.declarations == old(self).declarations,
                self.blocks == old(self).blocks,
                self.functions == old(self).functions,
                self.ast == old(self).ast,
                self.next_var == old(self).next_var,
                self.bindings.uses() == old(self).bindings.uses(),
                self.bindings.envs() == old(self).bindings.envs(),
                self.bindings.funcs() == old(self).bindings.funcs(),
                self.bindings.jumps().len() == old(self).bindings.jumps().len(),
                forall|h: int, l: int|
                    0 <= h < frame.gotos@.len() && label_named(frame.labels@, frame.gotos@[h].name@) == Some(l) ==> #[trigger] frame.labels@[l].declarations
                        <= #[trigger] frame.gotos@[h].declarations,
                g <= frame.gotos@.len(),
                forall|e: int|
                    0 <= e < escaping@.len() ==> #[trigger] escaping@[e].declarations <= frame.declarations
                        && escaping@[e].stat.id() < old(self).bindings.jumps().len() && !has_label(frame.labels@, escaping@[e].name@),
                function ==> forall|h: int| 0 <= h < g ==> has_label(frame.labels@, #[trigger] frame.gotos@[h].name@),
                forall|h: int| 0 <= h < frame.gotos@.len() ==> !#[trigger] jumps_in(*frame, h),
            decreases frame.gotos@.len() - g,
        {
            let goto = frame.gotos[g];
            if find_label(&frame.labels, goto.name).is_none() {
                if function {
                    proof {
                        assert(lost(*frame, g as int));
                        assert forall|h: int| 0 <= h < g implies !lost(*frame, h) by {
                            assert(has_label(frame.labels@, frame.gotos@[h].name@));
                        }
                        assert(first_lost(*frame, g as int));
                        assert(!(exists|h: int| 0 <= h < frame.gotos@.len() && #[trigger] jumps_in(*frame, h)));
                    }
                    return Err(
                        error(ErrorKind::NoVisibleLabel { name: vstd::slice::slice_to_vec(goto.name), goto_at: goto.at }, close_at),
                    );
                }
                let declarations = if goto.declarations < frame.declarations {
                    goto.declarations
                } else {
                    frame.declarations
                };
                escaping.push(Goto { name: goto.name, at: goto.at, declarations, stat: goto.stat });
            }
            g += 1;
        }
        Ok(escaping)
    }
}

impl<'a, 'src> Resolver<'a, 'src> {
    /// Closes a block that is not a function's outermost one: its gotos are settled, those
    /// without a label here move out to the enclosing block, and its declarations go.
    #[verifier::rlimit(50)]
    pub(crate) fn leave_block(&mut self, close_at: u32) -> (r: Result<(), Error>)
        requires
            old(self).wf(),
            old(self).functions@.last().floor < old(self).blocks@.len() - 1,
        ensures
            r is Ok <==> settles(old(self).blocks@.last(), false),
            r matches Err(e) ==> refusal(old(self).blocks@.last(), false, old(self).declarations@, close_at, e),
            r is Ok ==> final(self).wf(),
            r is Ok ==> final(self).blocks@.len() == old(self).blocks@.len() - 1,
            r is Ok ==> forall|j: int|
                0 <= j < final(self).blocks@.len() - 1 ==> #[trigger] final(self).blocks@[j] == old(self).blocks@[j],
            r is Ok ==> final(self).blocks@.last().declarations == old(self).blocks@[old(self).blocks@.len() - 2].declarations,
            r is Ok ==> final(self).declarations@ == old(self).declarations@.take(old(self).blocks@.last().declarations as int),
            final(self).functions@ == old(self).functions@,
            final(self).ast == old(self).ast,
            final(self).next_var == old(self).next_var,
            final(self).bindings.uses() == old(self).bindings.uses(),
            final(self).bindings.envs() == old(self).bindings.envs(),
            final(self).bindings.funcs() == old(self).bindings.funcs(),
    {
        let ghost before = *self;
        let frame = match self.blocks.pop() {
            Some(frame) => frame,
            None => unreached(),
        };
        proof {
            assert(frame == before.blocks@.last());
            assert(frame_ok(frame, before.height_above(before.blocks@.len() - 1), before.ast.stats().len() as int));
        }
        let escaping = self.settle(&frame, close_at, false)?;
        let mut parent = match self.blocks.pop() {
            Some(parent) => parent,
            None => unreached(),
        };
        let ghost old_parent = parent;
        let mut e: usize = 0;
        while e < escaping.len()
            invariant
                e <= escaping@.len(),
                parent.declarations == old_parent.declarations,
                parent.labels == old_parent.labels,
                parent.gotos@.len() == old_parent.gotos@.len() + e,
                forall|g: int| 0 <= g < old_parent.gotos@.len() ==> #[trigger] parent.gotos@[g] == old_parent.gotos@[g],
                forall|g: int| 0 <= g < e ==> #[trigger] parent.gotos@[old_parent.gotos@.len() + g] == escaping@[g],
            decreases escaping@.len() - e,
        {
            parent.gotos.push(escaping[e]);
            e += 1;
        }
        self.blocks.push(parent);
        self.declarations.truncate(frame.declarations);
        proof {
            let n = before.blocks@.len();
            assert(self.blocks@.len() == n - 1);
            assert forall|j: int| 0 <= j < n - 2 implies #[trigger] self.blocks@[j] == before.blocks@[j] by {}
            assert(self.declarations@ =~= before.declarations@.take(frame.declarations as int));
            assert forall|j: int| 0 <= j < self.blocks@.len() implies frame_ok(
                #[trigger] self.blocks@[j],
                self.height_above(j),
                self.ast.stats().len() as int,
            ) by {
                if j < n - 2 {
                    assert(self.blocks@[j] == before.blocks@[j]);
                    assert(before.height_above(j) == self.height_above(j));
                } else {
                    assert(self.blocks@[j] == parent);
                    assert(frame_ok(old_parent, before.height_above(n - 2), before.ast.stats().len() as int));
                    assert(self.height_above(j) == frame.declarations as int);
                    assert(before.height_above(n - 2) == frame.declarations as int);
                    assert forall|g: int| 0 <= g < parent.gotos@.len() implies #[trigger] parent.gotos@[g].declarations
                        <= self.height_above(j) && parent.gotos@[g].stat.id() < self.ast.stats().len() by {
                        if g >= old_parent.gotos@.len() {
                            let g2 = g - old_parent.gotos@.len();
                            assert(parent.gotos@[old_parent.gotos@.len() + g2] == escaping@[g2]);
                            assert(escaping@[g2].declarations <= frame.declarations);
                        } else {
                            assert(parent.gotos@[g] == old_parent.gotos@[g]);
                            assert(old_parent.gotos@[g].declarations <= frame.declarations);
                            assert(old_parent.gotos@[g].stat.id() < self.ast.stats().len());
                        }
                    }
                }
            }
            assert forall|k: int| 0 <= k < self.functions@.len() implies #[trigger] self.functions@[k].floor < self.blocks@.len()
                && self.functions@[k].index < self.bindings.funcs().len() by {
                if k < self.functions@.len() - 1 {
                    assert(self.functions@[k].floor < self.functions@[self.functions@.len() - 1].floor);
                }
            }
            assert forall|i: int, k: int|
                #![trigger self.declarations@[i], self.functions@[k]]
                0 <= i < self.declarations@.len() && 0 < k < self.functions@.len() && i < self.blocks@[self.functions@[k].floor as int].declarations
                    implies self.declarations@[i].function < k by {
                assert(self.declarations@[i] == before.declarations@[i]);
                let f = self.functions@[k].floor as int;
                if f < n - 2 {
                    assert(self.blocks@[f] == before.blocks@[f]);
                } else {
                    assert(self.blocks@[f].declarations == before.blocks@[f].declarations);
                }
            }
            assert forall|j1: int, j2: int| 0 <= j1 <= j2 < self.blocks@.len() implies #[trigger] self.blocks@[j1].declarations
                <= #[trigger] self.blocks@[j2].declarations by {
                assert(self.blocks@[j1].declarations == before.blocks@[j1].declarations);
                assert(self.blocks@[j2].declarations == before.blocks@[j2].declarations);
            }
            assert forall|j: int| 0 <= j < self.blocks@.len() implies #[trigger] self.blocks@[j].declarations <= self.declarations@.len() by {
                assert(self.blocks@[j].declarations == before.blocks@[j].declarations);
                assert(before.blocks@[j].declarations <= before.blocks@[n - 1].declarations);
            }
        }
        Ok(())
    }

    /// Opens a function, and its outermost block.
    pub(crate) fn enter_function(&mut self, index: usize)
        requires
            old(self).wf(),
            index < old(self).bindings.funcs().len(),
        ensures
            final(self).wf(),
            final(self).ast == old(self).ast,
            final(self).declarations@ == old(self).declarations@,
            final(self).bindings == old(self).bindings,
            final(self).next_var == old(self).next_var,
            final(self).functions@.len() == old(self).functions@.len() + 1,
            forall|k: int| 0 <= k < old(self).functions@.len() ==> #[trigger] final(self).functions@[k] == old(self).functions@[k],
            final(self).functions@.last().floor == old(self).blocks@.len(),
            final(self).functions@.last().index == index,
            final(self).functions@.last().upvalues@.len() == 0,
            final(self).blocks@.len() == old(self).blocks@.len() + 1,
            final(self).blocks@.last().declarations == old(self).declarations@.len(),
            forall|j: int| 0 <= j < old(self).blocks@.len() ==> #[trigger] final(self).blocks@[j] == old(self).blocks@[j],
    {
        let ghost before = *self;
        let frame = FunctionFrame { floor: self.blocks.len(), index, upvalues: Vec::new() };
        self.functions.push(frame);
        let block = BlockFrame { declarations: self.declarations.len(), labels: Vec::new(), gotos: Vec::new() };
        self.blocks.push(block);
        proof {
            let n = before.blocks@.len();
            assert forall|j: int| 0 <= j < self.blocks@.len() implies frame_ok(
                #[trigger] self.blocks@[j],
                self.height_above(j),
                self.ast.stats().len() as int,
            ) by {
                if j < n {
                    assert(self.blocks@[j] == before.blocks@[j]);
                    if j < n - 1 {
                        assert(before.height_above(j) == self.height_above(j));
                    }
                }
            }
            assert forall|i: int, k: int|
                #![trigger self.declarations@[i], self.functions@[k]]
                0 <= i < self.declarations@.len() && 0 < k < self.functions@.len() && i < self.blocks@[self.functions@[k].floor as int].declarations
                    implies self.declarations@[i].function < k by {
                if k < before.functions@.len() {
                    assert(self.functions@[k] == before.functions@[k]);
                    assert(self.blocks@[self.functions@[k].floor as int] == before.blocks@[self.functions@[k].floor as int]);
                }
            }
            assert forall|k: int, j: int| 0 <= k < j < self.functions@.len() implies #[trigger] self.functions@[k].floor
                < #[trigger] self.functions@[j].floor by {
                if j < before.functions@.len() {
                    assert(self.functions@[k] == before.functions@[k]);
                    assert(self.functions@[j] == before.functions@[j]);
                } else {
                    assert(self.functions@[k] == before.functions@[k]);
                }
            }
            assert forall|j1: int, j2: int| 0 <= j1 <= j2 < self.blocks@.len() implies #[trigger] self.blocks@[j1].declarations
                <= #[trigger] self.blocks@[j2].declarations by {
                if j2 < n {
                    assert(self.blocks@[j1] == before.blocks@[j1]);
                    assert(self.blocks@[j2] == before.blocks@[j2]);
                } else if j1 < n {
                    assert(self.blocks@[j1] == before.blocks@[j1]);
                }
            }
        }
    }

    /// Closes a function: its outermost block's gotos must all have found a label, its
    /// declarations go, and what it captured is recorded for it.
    #[verifier::rlimit(80)]
    pub(crate) fn leave_function(&mut self, close_at: u32) -> (r: Result<(), Error>)
        requires
            old(self).wf(),
            old(self).functions@.last().floor == old(self).blocks@.len() - 1,
        ensures
            r is Ok <==> settles(old(self).blocks@.last(), true),
            r matches Err(e) ==> refusal(old(self).blocks@.last(), true, old(self).declarations@, close_at, e),
            r is Ok && final(self).functions@.len() >= 1 ==> final(self).wf(),
            r is Ok ==> final(self).functions@ == old(self).functions@.drop_last(),
            r is Ok ==> final(self).blocks@ == old(self).blocks@.drop_last(),
            r is Ok ==> final(self).declarations@ == old(self).declarations@.take(old(self).blocks@.last().declarations as int),
            r is Ok ==> final(self).bindings.funcs().len() == old(self).bindings.funcs().len(),
            final(self).ast == old(self).ast,
            final(self).next_var == old(self).next_var,
            final(self).bindings.uses() == old(self).bindings.uses(),
            final(self).bindings.envs() == old(self).bindings.envs(),
            final(self).bindings.jumps().len() == old(self).bindings.jumps().len(),
    {
        let ghost before = *self;
        let frame = match self.blocks.pop() {
            Some(frame) => frame,
            None => unreached(),
        };
        proof {
            assert(frame == before.blocks@.last());
            assert(frame_ok(frame, before.height_above(before.blocks@.len() - 1), before.ast.stats().len() as int));
        }
        self.settle(&frame, close_at, true)?;
        self.declarations.truncate(frame.declarations);
        let function = match self.functions.pop() {
            Some(function) => function,
            None => unreached(),
        };
        let mut upvalues: Vec<Upvalue> = Vec::new();
        let mut u: usize = 0;
        while u < function.upvalues.len()
            invariant
                u <= function.upvalues@.len(),
            decreases function.upvalues@.len() - u,
        {
            let (name, capture) = function.upvalues[u];
            upvalues.push(Upvalue { name: vstd::slice::slice_to_vec(name), capture });
            u += 1;
        }
        proof {
            assert(function == before.functions@.last());
            assert(function.index < self.bindings.funcs().len());
        }
        self.bindings.set_upvalues(function.index, upvalues);
        proof {
            let n = before.blocks@.len();
            assert(self.declarations@ =~= before.declarations@.take(frame.declarations as int));
            assert(self.blocks@ =~= before.blocks@.drop_last());
            assert(self.functions@ =~= before.functions@.drop_last());
            if self.functions@.len() >= 1 {
                let t = before.functions@.len() - 1;
                assert forall|j: int| 0 <= j < self.blocks@.len() implies frame_ok(
                    #[trigger] self.blocks@[j],
                    self.height_above(j),
                    self.ast.stats().len() as int,
                ) by {
                    assert(self.blocks@[j] == before.blocks@[j]);
                    if j < n - 2 {
                        assert(before.height_above(j) == self.height_above(j));
                    }
                }
                assert forall|k: int| 0 <= k < self.functions@.len() implies #[trigger] self.functions@[k].floor < self.blocks@.len()
                    && self.functions@[k].index < self.bindings.funcs().len() by {
                    assert(self.functions@[k] == before.functions@[k]);
                    assert(before.functions@[k].floor < before.functions@[t].floor);
                }
                assert forall|i: int| 0 <= i < self.declarations@.len() implies #[trigger] self.declarations@[i].function
                    < self.functions@.len() by {
                    assert(self.declarations@[i] == before.declarations@[i]);
                    assert(before.declarations@[i].function < t);
                }
                assert forall|i: int, k: int|
                    #![trigger self.declarations@[i], self.functions@[k]]
                    0 <= i < self.declarations@.len() && 0 < k < self.functions@.len() && i < self.blocks@[self.functions@[k].floor as int].declarations
                        implies self.declarations@[i].function < k by {
                    assert(self.declarations@[i] == before.declarations@[i]);
                    assert(self.functions@[k] == before.functions@[k]);
                    assert(self.blocks@[self.functions@[k].floor as int] == before.blocks@[self.functions@[k].floor as int]);
                }
                assert forall|k: int, j: int| 0 <= k < j < self.functions@.len() implies #[trigger] self.functions@[k].floor
                    < #[trigger] self.functions@[j].floor by {
                    assert(self.functions@[k] == before.functions@[k]);
                    assert(self.functions@[j] == before.functions@[j]);
                }
                assert forall|j1: int, j2: int| 0 <= j1 <= j2 < self.blocks@.len() implies #[trigger] self.blocks@[j1].declarations
                    <= #[trigger] self.blocks@[j2].declarations by {
                    assert(self.blocks@[j1] == before.blocks@[j1]);
                    assert(self.blocks@[j2] == before.blocks@[j2]);
                }
                assert forall|j: int| 0 <= j < self.blocks@.len() implies #[trigger] self.blocks@[j].declarations <= self.declarations@.len() by {
                    assert(self.blocks@[j] == before.blocks@[j]);
                    assert(before.blocks@[j].declarations <= before.blocks@[n - 1].declarations);
                }
            }
        }
        Ok(())
    }

    /// Registers a label in the innermost block, unless a block of the same function already
    /// has one by that name. A label at a block's end sees only the declarations the block
    /// started with.
    pub(crate) fn declare_label(&mut self, name: &'src [u8], at: u32, report_at: u32, tail: bool, stat: StatId) -> (r: Result<
        (),
        Error,
    >)
        requires
            old(self).wf(),
            stat.id() < old(self).ast.stats().len(),
        ensures
            r is Ok ==> final(self).wf(),
            r is Ok <==> forall|j: int|
                old(self).functions@.last().floor <= j < old(self).blocks@.len() ==> !has_label(#[trigger] old(self).blocks@[j].labels@, name@),
            r is Ok ==> final(self).blocks@.len() == old(self).blocks@.len(),
            r is Ok ==> forall|j: int|
                0 <= j < final(self).blocks@.len() - 1 ==> #[trigger] final(self).blocks@[j] == old(self).blocks@[j],
            r is Ok ==> final(self).blocks@.last().declarations == old(self).blocks@.last().declarations,
            r is Ok ==> final(self).blocks@.last().gotos == old(self).blocks@.last().gotos,
            final(self).declarations == old(self).declarations,
            final(self).functions == old(self).functions,
            final(self).ast == old(self).ast,
            final(self).next_var == old(self).next_var,
            final(self).bindings == old(self).bindings,
            r matches Err(e) ==> e.kind matches ErrorKind::LabelAlreadyDefined { .. },
    {
        let ghost before = *self;
        let floor = self.functions[self.functions.len() - 1].floor;
        let mut j = floor;
        while j < self.blocks.len()
            invariant
                *self == before,
                floor == before.functions@.last().floor,
                floor <= j <= self.blocks@.len(),
                forall|i: int| floor <= i < j ==> !has_label(#[trigger] self.blocks@[i].labels@, name@),
            decreases self.blocks@.len() - j,
        {
            if let Some(l) = find_label(&self.blocks[j].labels, name) {
                let first_at = self.blocks[j].labels[l].at;
                return Err(
                    error(ErrorKind::LabelAlreadyDefined { name: vstd::slice::slice_to_vec(name), first_at }, report_at),
                );
            }
            j += 1;
        }
        let height = self.declarations.len();
        let mut top = match self.blocks.pop() {
            Some(top) => top,
            None => unreached(),
        };
        let declarations = if tail {
            top.declarations
        } else {
            height
        };
        top.labels.push(Label { name, at, declarations, stat });
        self.blocks.push(top);
        proof {
            let n = before.blocks@.len();
            assert forall|i: int| 0 <= i < self.blocks@.len() implies frame_ok(
                #[trigger] self.blocks@[i],
                self.height_above(i),
                self.ast.stats().len() as int,
            ) by {
                if i < n - 1 {
                    assert(self.blocks@[i] == before.blocks@[i]);
                    assert(before.height_above(i) == self.height_above(i));
                } else {
                    assert(frame_ok(before.blocks@[n - 1], before.height_above(n - 1), self.ast.stats().len() as int));
                    assert(before.blocks@[n - 1].declarations <= before.declarations@.len());
                }
            }
            assert forall|k: int| 0 <= k < self.functions@.len() implies #[trigger] self.functions@[k].floor < self.blocks@.len()
                && self.functions@[k].index < self.bindings.funcs().len() by {}
            assert forall|i: int, k: int|
                #![trigger self.declarations@[i], self.functions@[k]]
                0 <= i < self.declarations@.len() && 0 < k < self.functions@.len() && i < self.blocks@[self.functions@[k].floor as int].declarations
                    implies self.declarations@[i].function < k by {
                assert(self.blocks@[self.functions@[k].floor as int].declarations == before.blocks@[self.functions@[k].floor as int].declarations);
            }
            assert forall|j1: int, j2: int| 0 <= j1 <= j2 < self.blocks@.len() implies #[trigger] self.blocks@[j1].declarations
                <= #[trigger] self.blocks@[j2].declarations by {
                assert(self.blocks@[j1].declarations == before.blocks@[j1].declarations);
                assert(self.blocks@[j2].declarations == before.blocks@[j2].declarations);
            }
            assert forall|i: int| 0 <= i < self.blocks@.len() implies #[trigger] self.blocks@[i].declarations <= self.declarations@.len() by {
                assert(self.blocks@[i].declarations == before.blocks@[i].declarations);
            }
        }
        Ok(())
    }
}

impl<'a, 'src> Resolver<'a, 'src> {
    /// A goto waits in the innermost block for its label.
    pub(crate) fn push_goto(&mut self, goto: Goto<'src>)
        requires
            old(self).wf(),
            goto.declarations == old(self).declarations@.len(),
            goto.stat.id() < old(self).ast.stats().len(),
        ensures
            final(self).wf(),
            final(self).same_frames(*old(self)),
            final(self).declarations == old(self).declarations,
            final(self).bindings == old(self).bindings,
            final(self).functions == old(self).functions,
            final(self).next_var == old(self).next_var,
            forall|j: int| 0 <= j < old(self).blocks@.len() - 1 ==> #[trigger] final(self).blocks@[j] == old(self).blocks@[j],
            final(self).blocks@.last().gotos@ == old(self).blocks@.last().gotos@.push(goto),
            final(self).blocks@.last().labels == old(self).blocks@.last().labels,
    {
        let ghost before = *self;
        let mut top = match self.blocks.pop() {
            Some(top) => top,
            None => unreached(),
        };
        top.gotos.push(goto);
        self.blocks.push(top);
        proof {
            let n = before.blocks@.len();
            assert forall|i: int| 0 <= i < self.blocks@.len() implies frame_ok(
                #[trigger] self.blocks@[i],
                self.height_above(i),
                self.ast.stats().len() as int,
            ) by {
                if i < n - 1 {
                    assert(self.blocks@[i] == before.blocks@[i]);
                    assert(before.height_above(i) == self.height_above(i));
                } else {
                    assert(frame_ok(before.blocks@[n - 1], before.height_above(n - 1), self.ast.stats().len() as int));
                }
            }
            assert forall|k: int| 0 <= k < self.functions@.len() implies #[trigger] self.functions@[k].floor < self.blocks@.len()
                && self.functions@[k].index < self.bindings.funcs().len() by {}
            assert forall|i: int, k: int|
                #![trigger self.declarations@[i], self.functions@[k]]
                0 <= i < self.declarations@.len() && 0 < k < self.functions@.len() && i < self.blocks@[self.functions@[k].floor as int].declarations
                    implies self.declarations@[i].function < k by {
                assert(self.blocks@[self.functions@[k].floor as int].declarations == before.blocks@[self.functions@[k].floor as int].declarations);
            }
            assert forall|j1: int, j2: int| 0 <= j1 <= j2 < self.blocks@.len() implies #[trigger] self.blocks@[j1].declarations
                <= #[trigger] self.blocks@[j2].declarations by {
                assert(self.blocks@[j1].declarations == before.blocks@[j1].declarations);
                assert(self.blocks@[j2].declarations == before.blocks@[j2].declarations);
            }
            assert forall|i: int| 0 <= i < self.blocks@.len() implies #[trigger] self.blocks@[i].declarations <= self.declarations@.len() by {
                assert(self.blocks@[i].declarations == before.blocks@[i].declarations);
            }
            assert forall|j: int| 0 <= j < self.blocks@.len() implies #[trigger] self.blocks@[j].declarations == before.blocks@[j].declarations by {}
        }
    }
}

} // verus!
