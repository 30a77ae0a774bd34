//! Call frames.
use vstd::prelude::*;

use crate::heap::FuncRef;
use crate::value::Value;

verus! {

/// How many values the caller of a frame expects back.
#[derive(Debug, Clone, Copy, PartialEq, Eq, Structural)]
pub enum Want {
    Exactly(u16),
    /// However many the callee returns.
    All,
}

/// One call in progress.
#[derive(Debug, Clone, Copy, PartialEq, Eq, Structural)]
pub enum Frame {
    Lua {
        func: FuncRef,
        /// Index into the value stack, not a pointer: the stack reallocates as it grows.
        base: u32,
        top: u32,
        pc: u32,
        want: Want,
        /// Where the results go in the caller.
        ret_to: u32,
        /// How many extra arguments sit just below `base`.
        varargs: u32,
    },
}

/// The slots a frame keeps alive: its registers, from its base up to its top.
pub open spec fn frame_roots(frame: Frame, values: Seq<Value>) -> Seq<Value> {
    match frame {
        Frame::Lua { base, top, .. } => values.subrange(base as int, top as int),
    }
}

/// The frame's registers lie inside a stack of `len` values.
pub open spec fn frame_within(frame: Frame, len: int) -> bool {
    match frame {
        Frame::Lua { base, top, .. } => base <= top <= len,
    }
}

/// The frame, with its top moved.
pub open spec fn with_top(frame: Frame, top: u32) -> Frame {
    match frame {
        Frame::Lua { func, base, pc, want, ret_to, varargs, .. } => Frame::Lua { func, base, top, pc, want, ret_to, varargs },
    }
}

impl Frame {
    /// Every value the frame keeps alive.
    pub fn roots(&self, values: &[Value]) -> (roots: Vec<Value>)
        requires
            frame_within(*self, values@.len() as int),
        ensures
            roots@ == frame_roots(*self, values@),
    {
        match *self {
            Frame::Lua { base, top, .. } => {
                let mut roots: Vec<Value> = Vec::new();
                let mut index: u32 = base;
                while index < top
                    invariant
                        base <= index <= top,
                        top <= values@.len(),
                        roots@ == values@.subrange(base as int, index as int),
                    decreases top - index,
                {
                    roots.push(values[index as usize]);
                    index += 1;
                    proof {
                        assert(roots@ =~= values@.subrange(base as int, index as int));
                    }
                }
                roots
            },
        }
    }
}

} // verus!
