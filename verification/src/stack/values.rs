//! The two stacks, and the only thing that reads both.
use vstd::prelude::*;

use super::frame::{frame_roots, frame_within, Frame};
use crate::value::Value;

verus! {

/// The values every live frame keeps alive, frame by frame from the bottom.
pub open spec fn all_roots(frames: Seq<Frame>, values: Seq<Value>) -> Seq<Value>
    decreases frames.len(),
{
    if frames.len() == 0 {
        Seq::empty()
    } else {
        all_roots(frames.drop_last(), values) + frame_roots(frames.last(), values)
    }
}

/// `values` with the slots from `from` up to `to` set to `value`.
pub open spec fn filled(values: Seq<Value>, from: int, to: int, value: Value) -> Seq<Value> {
    Seq::new(values.len(), |i: int| if from <= i < to { value } else { values[i] })
}

/// `values` with the `count` slots at `from` copied to `to`, as they were before the copy.
pub open spec fn shifted(values: Seq<Value>, from: int, to: int, count: int) -> Seq<Value> {
    Seq::new(values.len(), |i: int| if to <= i < to + count { values[from + i - to] } else { values[i] })
}

/// `values` grown to `height` with nils, or as it was where it is that high already.
pub open spec fn reserved(values: Seq<Value>, height: int) -> Seq<Value> {
    if values.len() < height {
        values + Seq::new((height - values.len()) as nat, |i: int| Value::Nil)
    } else {
        values
    }
}

pub struct Stack {
    values: Vec<Value>,
    frames: Vec<Frame>,
}

impl Default for Stack {
    fn default() -> (stack: Self)
        ensures
            stack.values() == Seq::<Value>::empty(),
            stack.frames() == Seq::<Frame>::empty(),
    {
        Stack { values: Vec::new(), frames: Vec::new() }
    }
}

impl Stack {
    /// The value stack, slot by slot.
    pub closed spec fn values(&self) -> Seq<Value> {
        self.values@
    }

    /// The frames, the running one last.
    pub closed spec fn frames(&self) -> Seq<Frame> {
        self.frames@
    }

    /// Every slot has a `u32` index.
    pub open spec fn wf(&self) -> bool {
        self.values().len() <= u32::MAX
    }

    /// Every value reachable from a live frame. Each frame answers for itself.
    pub fn roots(&self) -> (roots: Vec<Value>)
        requires
            forall|k: int| 0 <= k < self.frames().len() ==> frame_within(#[trigger] self.frames()[k], self.values().len() as int),
        ensures
            roots@ == all_roots(self.frames(), self.values()),
    {
        let mut roots: Vec<Value> = Vec::new();
        let mut k: usize = 0;
        proof {
            assert(self.frames@.take(0) =~= Seq::<Frame>::empty());
        }
        while k < self.frames.len()
            invariant
                k <= self.frames@.len(),
                forall|j: int| 0 <= j < self.frames().len() ==> frame_within(#[trigger] self.frames()[j], self.values().len() as int),
                roots@ == all_roots(self.frames@.take(k as int), self.values@),
            decreases self.frames@.len() - k,
        {
            assert(frame_within(self.frames()[k as int], self.values().len() as int));
            let mut own = self.frames[k].roots(self.values.as_slice());
            roots.append(&mut own);
            proof {
                let next = self.frames@.take(k + 1);
                assert(next.drop_last() =~= self.frames@.take(k as int));
                assert(next.last() == self.frames@[k as int]);
            }
            k += 1;
        }
        proof {
            assert(self.frames@.take(k as int) =~= self.frames@);
        }
        roots
    }

    pub fn depth(&self) -> (depth: usize)
        ensures
            depth == self.frames().len(),
    {
        self.frames.len()
    }

    pub fn enter(&mut self, frame: Frame)
        ensures
            final(self).frames() == old(self).frames().push(frame),
            final(self).values() == old(self).values(),
    {
        self.frames.push(frame);
    }

    pub fn leave(&mut self) -> (frame: Option<Frame>)
        ensures
            old(self).frames().len() == 0 ==> frame is None && final(self).frames() == old(self).frames(),
            old(self).frames().len() > 0 ==> frame == Some(old(self).frames().last())
                && final(self).frames() == old(self).frames().drop_last(),
            final(self).values() == old(self).values(),
    {
        self.frames.pop()
    }

    /// The running frame.
    pub fn current(&self) -> (frame: &Frame)
        requires
            self.frames().len() > 0,
        ensures
            *frame == self.frames().last(),
    {
        let n = self.frames.len();
        &self.frames[n - 1]
    }

    /// Replaces the running frame.
    pub fn set_current(&mut self, frame: Frame)
        requires
            old(self).frames().len() > 0,
        ensures
            final(self).frames() == old(self).frames().update(old(self).frames().len() - 1, frame),
            final(self).values() == old(self).values(),
    {
        let n = self.frames.len();
        self.frames.set(n - 1, frame);
    }

    pub fn height(&self) -> (height: u32)
        requires
            self.wf(),
        ensures
            height == self.values().len(),
    {
        self.values.len() as u32
    }

    pub fn at(&self, index: u32) -> (value: Value)
        requires
            index < self.values().len(),
        ensures
            value == self.values()[index as int],
    {
        self.values[index as usize]
    }

    pub fn put(&mut self, index: u32, value: Value)
        requires
            index < old(self).values().len(),
        ensures
            final(self).values() == old(self).values().update(index as int, value),
            final(self).frames() == old(self).frames(),
    {
        self.values.set(index as usize, value);
    }

    /// Make room up to `height`, filling what is new with nil.
    pub fn reserve(&mut self, height: u32)
        ensures
            final(self).values() == reserved(old(self).values(), height as int),
            final(self).frames() == old(self).frames(),
            old(self).wf() ==> final(self).wf(),
    {
        if self.values.len() < height as usize {
            let ghost before = self.values@;
            self.values.resize(height as usize, Value::Nil);
            proof {
                assert(self.values@ =~= reserved(before, height as int));
            }
        }
    }

    /// Puts a value on top of the stack.
    pub fn push(&mut self, value: Value)
        requires
            old(self).values().len() < u32::MAX,
        ensures
            final(self).values() == old(self).values().push(value),
            final(self).frames() == old(self).frames(),
            final(self).wf(),
    {
        self.values.push(value);
    }

    /// Drops the slots from `height` up.
    pub fn truncate(&mut self, height: u32)
        ensures
            final(self).values() == if height < old(self).values().len() {
                old(self).values().take(height as int)
            } else {
                old(self).values()
            },
            final(self).frames() == old(self).frames(),
            old(self).wf() ==> final(self).wf(),
    {
        self.values.truncate(height as usize);
    }

    pub fn fill(&mut self, from: u32, to: u32, value: Value)
        requires
            from >= to || to <= old(self).values().len(),
        ensures
            final(self).values() == filled(old(self).values(), from as int, to as int, value),
            final(self).frames() == old(self).frames(),
    {
        let ghost before = self.values@;
        let mut index: u32 = from;
        while index < to
            invariant
                from <= index,
                index == from || index <= to,
                index < to ==> to <= before.len(),
                self.values@.len() == before.len(),
                forall|i: int| 0 <= i < before.len() ==> #[trigger] self.values@[i] == if from <= i < index { value } else { before[i] },
                self.frames@ == old(self).frames@,
            decreases to - index,
        {
            self.values.set(index as usize, value);
            index += 1;
        }
        proof {
            assert(self.values@ =~= filled(before, from as int, to as int, value));
        }
    }

    /// Copies `count` slots from `from` to `to`, as `copy_within` does: the ranges may overlap.
    pub fn shift(&mut self, from: u32, to: u32, count: u32)
        requires
            old(self).wf(),
            from + count <= old(self).values().len(),
            to + count <= old(self).values().len(),
        ensures
            final(self).values() == shifted(old(self).values(), from as int, to as int, count as int),
            final(self).frames() == old(self).frames(),
    {
        let ghost before = self.values@;
        if to <= from {
            // Upwards: a slot is read before anything is written over it.
            let mut i: u32 = 0;
            while i < count
                invariant
                    to <= from,
                    i <= count,
                    from + count <= before.len(),
                    to + count <= before.len(),
                    before.len() <= u32::MAX,
                    self.values@.len() == before.len(),
                    forall|j: int|
                        0 <= j < before.len() ==> #[trigger] self.values@[j] == if to <= j < to + i {
                            before[from + j - to]
                        } else {
                            before[j]
                        },
                    self.frames@ == old(self).frames@,
                decreases count - i,
            {
                let value = self.values[(from + i) as usize];
                self.values.set((to + i) as usize, value);
                i += 1;
            }
        } else {
            // Downwards, for the same reason.
            let mut i: u32 = count;
            while i > 0
                invariant
                    to > from,
                    i <= count,
                    from + count <= before.len(),
                    to + count <= before.len(),
                    before.len() <= u32::MAX,
                    self.values@.len() == before.len(),
                    forall|j: int|
                        0 <= j < before.len() ==> #[trigger] self.values@[j] == if to + i <= j < to + count {
                            before[from + j - to]
                        } else {
                            before[j]
                        },
                    self.frames@ == old(self).frames@,
                decreases i,
            {
                let value = self.values[(from + i - 1) as usize];
                self.values.set((to + i - 1) as usize, value);
                i -= 1;
            }
        }
        proof {
            assert(self.values@ =~= shifted(before, from as int, to as int, count as int));
        }
    }
}

} // verus!
