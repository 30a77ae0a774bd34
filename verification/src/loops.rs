//! The counted `for` over integers: set up once, stepped each time round. The loop does not
//! compare its index with the limit as it goes; it counts down the iterations it worked out at
//! the start, which is what keeps the index from ever overflowing.
use vstd::prelude::*;

use crate::stack::Stack;
use crate::value::Value;

verus! {

/// The number of values an `i64` takes.
pub open spec fn span64() -> int {
    0x1_0000_0000_0000_0000
}

/// `left` read as the unsigned count the loop keeps in it.
pub open spec fn unsigned(left: i64) -> int {
    if left >= 0 {
        left as int
    } else {
        left + span64()
    }
}

/// How many times the body of `for i = init, limit, step` runs.
pub open spec fn runs(init: int, limit: int, step: int) -> int {
    if step > 0 {
        if init > limit {
            0
        } else {
            (limit - init) / step + 1
        }
    } else if init < limit {
        0
    } else {
        (init - limit) / (-step) + 1
    }
}

/// The index of the `k`-th time round, counting from 0.
pub open spec fn index_at(init: int, step: int, k: int) -> int {
    init + k * step
}

/// The count a loop keeps when `left` more times round remain, as the bits of a `u64`.
pub open spec fn left_bits(left: int) -> i64 {
    if left <= i64::MAX {
        left as i64
    } else {
        (left - span64()) as i64
    }
}

/// One step of an integer loop: nothing once the count is spent, else the next index and the
/// count less one, both wrapping as machine integers do.
pub open spec fn advance_of(index: i64, left: i64, step: i64) -> Option<(i64, i64)> {
    if left == 0 {
        None
    } else {
        Some((vstd::wrapping::i64_specs::wrapping_add(index, step), vstd::wrapping::i64_specs::wrapping_sub(left, 1)))
    }
}

/// Sets up an integer loop: `None` when the body does not run at all, otherwise how many more
/// times it runs after the first, kept as the bits of a `u64`.
pub fn prepare_integer(init: i64, limit: i64, step: i64) -> (left: Option<i64>)
    requires
        step != 0,
    ensures
        left is None <==> runs(init as int, limit as int, step as int) == 0,
        left matches Some(n) ==> unsigned(n) == runs(init as int, limit as int, step as int) - 1,
{
    if (step > 0 && init > limit) || (step < 0 && init < limit) {
        return None;
    }
    let (distance, stride): (u128, u128) = if step > 0 {
        ((limit as i128 - init as i128) as u128, step as u128)
    } else {
        ((init as i128 - limit as i128) as u128, (0i128 - step as i128) as u128)
    };
    let count: u128 = distance / stride;
    proof {
        assert(count <= distance) by (nonlinear_arith)
            requires
                count == distance / stride,
                stride >= 1,
        ;
    }
    let bits: i64 = if count > i64::MAX as u128 {
        (count as i128 - 0x1_0000_0000_0000_0000i128) as i64
    } else {
        count as i64
    };
    Some(bits)
}

/// Steps an integer loop: the next index and the count less one, or `None` once the count has
/// run out.
pub fn advance_integer(index: i64, left: i64, step: i64) -> (next: Option<(i64, i64)>)
    ensures
        next == advance_of(index, left, step),
{
    if left == 0 {
        return None;
    }
    Some((index.wrapping_add(step), left.wrapping_sub(1)))
}

/// An integer loop runs its body `runs` times, at `init`, `init + step`, and so on, and never
/// overflows: the `k`-th index lies between the start and the limit, stepping from the state of
/// the `k`-th time round gives the state of the next, and the step after the last gives nothing.
pub proof fn lemma_integer_loop(init: i64, limit: i64, step: i64, k: int)
    requires
        step != 0,
        0 <= k < runs(init as int, limit as int, step as int),
    ensures
        step > 0 ==> init <= index_at(init as int, step as int, k) <= limit,
        step < 0 ==> limit <= index_at(init as int, step as int, k) <= init,
        advance_of(
            index_at(init as int, step as int, k) as i64,
            left_bits(runs(init as int, limit as int, step as int) - 1 - k),
            step,
        ) == if k + 1 < runs(init as int, limit as int, step as int) {
            Some(
                (
                    index_at(init as int, step as int, k + 1) as i64,
                    left_bits(runs(init as int, limit as int, step as int) - 1 - (k + 1)),
                ),
            )
        } else {
            None
        },
{
    let n = runs(init as int, limit as int, step as int);
    let i = init as int;
    let l = limit as int;
    let s = step as int;
    if s > 0 {
        let q = (l - i) / s;
        assert(k * s <= q * s && q * s <= l - i && 0 <= k * s) by (nonlinear_arith)
            requires
                s > 0,
                l - i >= 0,
                q == (l - i) / s,
                0 <= k <= q,
        ;
        if k + 1 < n {
            assert((k + 1) * s == k * s + s) by (nonlinear_arith);
            assert((k + 1) * s <= q * s) by (nonlinear_arith)
                requires
                    s > 0,
                    k + 1 <= q,
            ;
        }
    } else {
        let q = (i - l) / (-s);
        assert(k * (-s) <= q * (-s) && q * (-s) <= i - l && 0 <= k * (-s)) by (nonlinear_arith)
            requires
                s < 0,
                i - l >= 0,
                q == (i - l) / (-s),
                0 <= k <= q,
        ;
        assert(k * s == -(k * (-s))) by (nonlinear_arith);
        if k + 1 < n {
            assert((k + 1) * s == k * s + s) by (nonlinear_arith);
            assert((k + 1) * (-s) <= q * (-s)) by (nonlinear_arith)
                requires
                    s < 0,
                    k + 1 <= q,
            ;
            assert((k + 1) * s == -((k + 1) * (-s))) by (nonlinear_arith);
        }
    }
    assert(n - 1 < span64()) by {
        if s > 0 {
            assert((l - i) / s <= l - i) by (nonlinear_arith)
                requires
                    s >= 1,
                    l - i >= 0,
            ;
        } else {
            assert((i - l) / (-s) <= i - l) by (nonlinear_arith)
                requires
                    -s >= 1,
                    i - l >= 0,
            ;
        }
    }
}

/// A counted loop whose step is zero, which never starts.
#[derive(Debug, Clone, Copy, PartialEq, Eq, Structural)]
pub struct StepZero;

/// Sets up an integer loop in the four slots from `control`, whose first and third hold its
/// start and step, given the limit the caller worked out from the second. A zero step is
/// refused. A loop that runs keeps the count of its further runs in the second slot and its
/// index in the fourth; one that does not run leaves the slots alone. The answer is whether the
/// body runs at all.
pub fn prepare_slots(stack: &mut Stack, control: u32, limit: i64) -> (r: Result<bool, StepZero>)
    requires
        old(stack).wf(),
        control + 4 <= old(stack).values().len(),
        old(stack).values()[control as int] is Int,
        old(stack).values()[control + 2] is Int,
    ensures
        ({
            let init = old(stack).values()[control as int]->Int_0;
            let step = old(stack).values()[control + 2]->Int_0;
            &&& r is Err <==> step == 0
            &&& r is Err ==> *final(stack) == *old(stack)
            &&& r matches Ok(going) ==> going == (runs(init as int, limit as int, step as int) > 0)
            &&& r == Ok::<bool, StepZero>(false) ==> *final(stack) == *old(stack)
            &&& r == Ok::<bool, StepZero>(true) ==> final(stack).frames() == old(stack).frames() && final(stack).values()
                == old(stack).values().update(
                control + 1,
                Value::Int(left_bits(runs(init as int, limit as int, step as int) - 1)),
            ).update(control + 3, Value::Int(init))
        }),
{
    let init = match stack.at(control) {
        Value::Int(n) => n,
        _ => unreached(),
    };
    let step = match stack.at(control + 2) {
        Value::Int(n) => n,
        _ => unreached(),
    };
    if step == 0 {
        return Err(StepZero);
    }
    match prepare_integer(init, limit, step) {
        None => Ok(false),
        Some(left) => {
            proof {
                let n = runs(init as int, limit as int, step as int) - 1;
                assert(left_bits(n) == left);
            }
            stack.put(control + 1, Value::Int(left));
            stack.put(control + 3, Value::Int(init));
            Ok(true)
        },
    }
}

/// Steps an integer loop in the four slots from `control`: once its count is spent the answer
/// is no and nothing changes; otherwise the index moves on by the step, in the first and the
/// fourth slot, and the count goes down by one.
pub fn advance_slots(stack: &mut Stack, control: u32) -> (again: bool)
    requires
        old(stack).wf(),
        control + 4 <= old(stack).values().len(),
        old(stack).values()[control as int] is Int,
        old(stack).values()[control + 1] is Int,
        old(stack).values()[control + 2] is Int,
    ensures
        ({
            let index = old(stack).values()[control as int]->Int_0;
            let left = old(stack).values()[control + 1]->Int_0;
            let step = old(stack).values()[control + 2]->Int_0;
            match advance_of(index, left, step) {
                None => !again && *final(stack) == *old(stack),
                Some((next, rest)) => again && final(stack).frames() == old(stack).frames() && final(stack).values()
                    == old(stack).values().update(control as int, Value::Int(next)).update(control + 1, Value::Int(rest)).update(
                    control + 3,
                    Value::Int(next),
                ),
            }
        }),
{
    let index = match stack.at(control) {
        Value::Int(n) => n,
        _ => unreached(),
    };
    let left = match stack.at(control + 1) {
        Value::Int(n) => n,
        _ => unreached(),
    };
    let step = match stack.at(control + 2) {
        Value::Int(n) => n,
        _ => unreached(),
    };
    match advance_integer(index, left, step) {
        None => false,
        Some((next, rest)) => {
            stack.put(control, Value::Int(next));
            stack.put(control + 1, Value::Int(rest));
            stack.put(control + 3, Value::Int(next));
            true
        },
    }
}

} // verus!
