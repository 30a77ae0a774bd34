//! Entering and leaving a frame: where the arguments go, and where the results go.
use vstd::prelude::*;
use vstd::math::{max, min};

use crate::heap::string::not_a_string;
use crate::heap::table::key::KeyView;
use crate::heap::{FuncRef, Heap};
use crate::stack::frame::{with_top, Frame, Want};
use crate::stack::values::{filled, reserved, shifted, Stack};
use crate::value::Value;

verus! {

/// Deep enough that no honest program reaches it, shallow enough to stop before the host runs
/// out of memory.
pub const DEPTH: usize = 200_000;

/// What a function does with the arguments past its parameters.
#[derive(Debug, Clone, Copy, PartialEq, Eq, Structural)]
pub enum VarargKind {
    /// It takes none: they are dropped.
    Fixed,
    /// `...`: they stay below the frame.
    Anonymous,
    /// A named `...`: they stay below the frame, and a table of them follows the parameters.
    Table,
}

/// What entering a Lua function needs to know of its prototype.
#[derive(Debug, Clone, Copy, PartialEq, Eq, Structural)]
pub struct Shape {
    pub params: u8,
    pub max_registers: u8,
    pub vararg: VarargKind,
}

/// A call that would go deeper than `DEPTH` frames.
#[derive(Debug, Clone, Copy, PartialEq, Eq, Structural)]
pub struct StackOverflow;

/// How many results the caller keeps of `produced`.
pub open spec fn kept_of(produced: int, want: Want) -> int {
    match want {
        Want::All => produced,
        Want::Exactly(count) => count as int,
    }
}

/// The stack once `produced` results at `from` have moved down to `to`, trimmed or padded with
/// nils to `kept`.
pub open spec fn settled(values: Seq<Value>, from: int, to: int, produced: int, kept: int) -> Seq<Value> {
    let moved = min(produced, kept);
    Seq::new(
        max(values.len() as int, to + kept) as nat,
        |i: int|
            if to <= i < to + moved {
                values[from + i - to]
            } else if to + moved <= i < to + kept {
                Value::Nil
            } else if i < values.len() {
                values[i]
            } else {
                Value::Nil
            },
    )
}

/// Moves `produced` results sitting at `from` down to `to`, trimmed or padded to `want`, and
/// answers where they end. A caller that takes them all finds its top there.
pub fn settle(stack: &mut Stack, from: u32, to: u32, produced: u32, want: Want) -> (end: u32)
    requires
        old(stack).wf(),
        from + produced <= old(stack).values().len(),
        to + kept_of(produced as int, want) <= u32::MAX,
        want == Want::All ==> old(stack).frames().len() > 0,
    ensures
        final(stack).wf(),
        end == to + kept_of(produced as int, want),
        final(stack).values() == settled(old(stack).values(), from as int, to as int, produced as int, kept_of(produced as int, want)),
        final(stack).frames() == if want == Want::All {
            old(stack).frames().update(old(stack).frames().len() - 1, with_top(old(stack).frames().last(), end))
        } else {
            old(stack).frames()
        },
{
    let ghost before = old(stack).values();
    let kept: u32 = match want {
        Want::All => produced,
        Want::Exactly(count) => count as u32,
    };
    let moved = if produced < kept {
        produced
    } else {
        kept
    };
    stack.reserve(to + kept);
    stack.shift(from, to, moved);
    stack.fill(to + moved, to + kept, Value::Nil);
    proof {
        let grown = reserved(before, to + kept);
        assert(stack.values() =~= settled(before, from as int, to as int, produced as int, kept as int)) by {
            assert(stack.values() == filled(shifted(grown, from as int, to as int, moved as int), to + moved, to + kept, Value::Nil));
        }
    }
    if want == Want::All {
        let top = to + kept;
        let frame = match *stack.current() {
            Frame::Lua { func, base, pc, want, ret_to, varargs, .. } => Frame::Lua { func, base, top, pc, want, ret_to, varargs },
        };
        stack.set_current(frame);
    }
    to + kept
}

/// Where a function's registers start: past its arguments when it keeps the extra ones below it.
pub open spec fn frame_base(callee: int, args: int, vararg: VarargKind) -> int {
    match vararg {
        VarargKind::Fixed => callee + 1,
        _ => callee + 1 + args,
    }
}

/// How many arguments past the parameters the frame keeps below itself.
pub open spec fn extra_args(args: int, shape: Shape) -> int {
    match shape.vararg {
        VarargKind::Fixed => 0,
        _ => if args > shape.params {
            args - shape.params
        } else {
            0
        },
    }
}

/// The registers that are set before the body runs: the parameters, and the table of extra
/// arguments where there is one.
pub open spec fn fixed_of(shape: Shape) -> int {
    if shape.vararg is Table {
        shape.params + 1
    } else {
        shape.params as int
    }
}

/// The stack once a function's frame is laid out over the call at `callee`: the parameters
/// hold the arguments, nil where there are fewer, the table of extra arguments follows them,
/// and every other register is nil.
pub open spec fn entered(values: Seq<Value>, callee: int, args: int, shape: Shape, table: Value) -> Seq<Value> {
    let first = callee + 1;
    let base = frame_base(callee, args, shape.vararg);
    let params = shape.params as int;
    let moved = min(params, args);
    let fixed = fixed_of(shape);
    let registers = shape.max_registers as int;
    Seq::new(
        max(values.len() as int, base + max(registers, fixed)) as nat,
        |i: int|
            if base <= i < base + moved {
                values[first + i - base]
            } else if base + moved <= i < base + params {
                Value::Nil
            } else if shape.vararg is Table && i == base + params {
                table
            } else if base + fixed <= i < base + registers {
                Value::Nil
            } else if i < values.len() {
                values[i]
            } else {
                Value::Nil
            },
    )
}

/// What the table of extra arguments holds at `k`: the `j`-th extra argument at `j`, and
/// nothing anywhere else.
pub open spec fn extra_arg_at(values: Seq<Value>, callee: int, args: int, shape: Shape, k: KeyView) -> Value {
    if k is Int && 1 <= k->Int_0 <= extra_args(args, shape) {
        values[callee + shape.params + k->Int_0]
    } else {
        Value::Nil
    }
}

/// The frame a call at `callee` runs in.
pub open spec fn entered_frame(func: FuncRef, callee: int, args: int, shape: Shape, want: Want) -> Frame {
    let base = frame_base(callee, args, shape.vararg);
    Frame::Lua {
        func,
        base: base as u32,
        top: (base + shape.max_registers) as u32,
        pc: 0,
        want,
        ret_to: callee as u32,
        varargs: extra_args(args, shape) as u32,
    }
}

/// Lays out the frame of the Lua function at `callee`, whose `args` arguments sit just above
/// it, and makes it the running one.
pub fn enter(stack: &mut Stack, heap: &mut Heap, callee: u32, args: u32, want: Want, shape: Shape) -> (r: Result<
    (),
    StackOverflow,
>)
    requires
        old(stack).wf(),
        old(heap).wf(),
        callee + 1 + args <= old(stack).values().len(),
        callee + 1 + args + 0x200 <= u32::MAX,
        old(stack).values()[callee as int] is Func,
        shape.vararg is Table ==> old(heap).has_room() && args < 0x3fff_ffff,
    ensures
        r is Err <==> old(stack).frames().len() >= DEPTH,
        r is Err ==> *final(stack) == *old(stack) && *final(heap) == *old(heap),
        r is Ok ==> final(stack).wf(),
        r is Ok ==> final(stack).frames() == old(stack).frames().push(
            entered_frame(old(stack).values()[callee as int]->Func_0, callee as int, args as int, shape, want),
        ),
        r is Ok && !(shape.vararg is Table) ==> *final(heap) == *old(heap) && final(stack).values() == entered(
            old(stack).values(),
            callee as int,
            args as int,
            shape,
            Value::Nil,
        ),
        r is Ok && shape.vararg is Table ==> ({
            let at = frame_base(callee as int, args as int, shape.vararg) + shape.params;
            let table = final(stack).values()[at];
            &&& final(stack).values() == entered(old(stack).values(), callee as int, args as int, shape, table)
            &&& table matches Value::Table(t) && t.id() == old(heap).strings().len()
            &&& final(heap).wf()
            &&& final(heap).is_table(old(heap).strings().len() as int)
            &&& final(heap).strings() == old(heap).strings().push(not_a_string())
            &&& final(heap).kinds() == old(heap).kinds().push(false)
            &&& final(heap).keeps_tables_of(old(heap))
            &&& forall|k: KeyView|
                #[trigger] final(heap).table_get_spec(old(heap).strings().len() as int, k) == extra_arg_at(
                    old(stack).values(),
                    callee as int,
                    args as int,
                    shape,
                    k,
                )
        }),
{
    if stack.depth() >= DEPTH {
        return Err(StackOverflow);
    }
    let handle = match stack.at(callee) {
        Value::Func(handle) => handle,
        _ => unreached(),
    };
    let ghost before = old(stack).values();
    let ghost heap_before = *old(heap);
    proof {
        crate::heap::string::lemma_kinds_len(&heap_before);
    }
    let params = shape.params as u32;
    let registers = shape.max_registers as u32;
    let kind = shape.vararg;
    let first = callee + 1;
    // A function that reads `...` keeps its extra arguments below the frame, so the fixed
    // parameters move up past them.
    let (base, varargs) = match kind {
        VarargKind::Fixed => (first, 0u32),
        VarargKind::Anonymous | VarargKind::Table => (
            first + args,
            if args > params {
                args - params
            } else {
                0
            },
        ),
    };
    let fixed = match kind {
        VarargKind::Table => params + 1,
        _ => params,
    };
    let moved = if params < args {
        params
    } else {
        args
    };
    let height = if registers > fixed {
        base + registers
    } else {
        base + fixed
    };
    stack.reserve(height);
    let ghost grown = stack.values();
    if base != first {
        stack.shift(first, base, moved);
        stack.fill(base + moved, base + params, Value::Nil);
    } else {
        stack.fill(first + moved, base + params, Value::Nil);
    }
    let ghost placed = stack.values();
    proof {
        assert(placed =~= filled(shifted(grown, first as int, base as int, moved as int), base + moved, base + params, Value::Nil));
        assert forall|i: int| #![trigger placed[i]] first <= i < base implies placed[i] == before[i] by {
            assert(grown[i] == before[i]);
        }
    }
    if kind == VarargKind::Table {
        let table = heap.new_table(varargs as usize, 0);
        let ghost t = table.id() as int;
        proof {
            assert(heap.table_keys(t) =~= Set::<KeyView>::empty());
        }
        let mut index: u32 = 0;
        while index < varargs
            invariant
                index <= varargs,
                varargs == extra_args(args as int, shape),
                base == frame_base(callee as int, args as int, shape.vararg),
                shape.vararg is Table,
                varargs > 0 ==> base - varargs == first + params,
                params == shape.params,
                first == callee + 1,
                base <= stack.values().len(),
                stack.values() == placed,
                forall|i: int| #![trigger placed[i]] first <= i < base ==> placed[i] == before[i],
                t == heap_before.strings().len(),
                heap_before.kinds().len() == t,
                heap.wf(),
                heap.is_table(t),
                heap.strings() == heap_before.strings().push(not_a_string()),
                heap.kinds() == heap_before.kinds().push(false),
                heap.keeps_tables_of(&heap_before),
                heap.table_keys(t).finite(),
                heap.table_keys(t).len() <= index,
                varargs < 0x3fff_ffff,
                table.id() == t,
                forall|k: KeyView|
                    #[trigger] heap.table_get_spec(t, k) == if k is Int && 1 <= k->Int_0 <= index {
                        before[callee + shape.params + k->Int_0]
                    } else {
                        Value::Nil
                    },
            decreases varargs - index,
        {
            let value = stack.at(base - varargs + index);
            let key = Value::Int(index as i64 + 1);
            let ghost prior = *heap;
            match heap.table_set(table, key, value) {
                Ok(()) => {},
                Err(_) => {
                    unreached()
                },
            }
            proof {
                crate::heap::table::api::lemma_read_after_write(&prior, &*heap, t, key, value, key);
                assert forall|k: KeyView| #[trigger] heap.table_get_spec(t, k) == if k is Int && 1 <= k->Int_0 <= index + 1 {
                    before[callee + shape.params + k->Int_0]
                } else {
                    Value::Nil
                } by {
                    assert(heap.table_get_spec(t, k) == if k == KeyView::Int((index + 1) as i64) {
                        value
                    } else {
                        prior.table_get_spec(t, k)
                    });
                }
                assert forall|i: int, k: KeyView| #![trigger heap.table_get_spec(i, k)]
                    heap_before.is_table(i) implies heap.is_table(i) && heap.table_get_spec(i, k) == heap_before.table_get_spec(i, k) by {
                    assert(prior.table_get_spec(i, k) == heap_before.table_get_spec(i, k));
                }
            }
            index += 1;
        }
        stack.put(base + params, Value::Table(table));
    }
    let ghost set = stack.values();
    stack.fill(base + fixed, base + registers, Value::Nil);
    proof {
        let table = set[base + params];
        assert(stack.values() =~= entered(before, callee as int, args as int, shape, if kind == VarargKind::Table {
            table
        } else {
            Value::Nil
        }));
    }
    stack.enter(Frame::Lua { func: handle, base, top: base + registers, pc: 0, want, ret_to: callee, varargs });
    Ok(())
}

} // verus!
