use ruta::call::{enter, settle, Shape, StackOverflow, VarargKind, DEPTH};
use ruta::heap::string::Heap;
use ruta::heap::FuncRef;
use ruta::loops::{advance_integer, advance_slots, prepare_integer, prepare_slots, StepZero};
use ruta::stack::{Frame, Stack, Want};
use ruta::value::Value;

fn ints(stack: &Stack, from: u32, to: u32) -> Vec<Value> {
    (from..to).map(|index| stack.at(index)).collect()
}

fn frame(base: u32, top: u32) -> Frame {
    Frame::Lua { func: FuncRef::from_index(0), base, top, pc: 0, want: Want::All, ret_to: 0, varargs: 0 }
}

/// A stack holding a function at slot 0, then `args`.
fn call_site(args: &[i64]) -> Stack {
    let mut stack = Stack::default();
    stack.reserve(1 + args.len() as u32);
    stack.put(0, Value::Func(FuncRef::from_index(3)));
    for (index, &arg) in args.iter().enumerate() {
        stack.put(1 + index as u32, Value::Int(arg));
    }
    stack
}

#[test]
fn reserve_grows_with_nils_and_never_shrinks() {
    let mut stack = Stack::default();
    assert_eq!(stack.height(), 0);
    stack.reserve(3);
    assert_eq!(stack.height(), 3);
    assert_eq!(ints(&stack, 0, 3), vec![Value::Nil; 3]);
    stack.put(1, Value::Int(5));
    stack.reserve(2);
    assert_eq!(stack.height(), 3);
    assert_eq!(stack.at(1), Value::Int(5));
}

#[test]
fn fill_sets_a_range_and_an_empty_range_is_nothing() {
    let mut stack = Stack::default();
    stack.reserve(4);
    stack.fill(1, 3, Value::Bool(true));
    assert_eq!(ints(&stack, 0, 4), vec![Value::Nil, Value::Bool(true), Value::Bool(true), Value::Nil]);
    stack.fill(9, 2, Value::Int(1));
    assert_eq!(stack.height(), 4);
}

#[test]
fn shift_copies_as_copy_within_does_over_overlapping_ranges() {
    let mut stack = Stack::default();
    stack.reserve(5);
    for index in 0..5 {
        stack.put(index, Value::Int(i64::from(index)));
    }
    stack.shift(0, 1, 3);
    assert_eq!(ints(&stack, 0, 5), [0, 0, 1, 2, 4].map(Value::Int).to_vec());
    stack.shift(1, 0, 4);
    assert_eq!(ints(&stack, 0, 5), [0, 1, 2, 4, 4].map(Value::Int).to_vec());
}

#[test]
fn frames_are_entered_and_left_in_order() {
    let mut stack = Stack::default();
    assert_eq!(stack.depth(), 0);
    assert_eq!(stack.leave(), None);
    stack.enter(frame(0, 1));
    stack.enter(frame(1, 2));
    assert_eq!(stack.depth(), 2);
    assert_eq!(*stack.current(), frame(1, 2));
    stack.set_current(frame(1, 3));
    assert_eq!(stack.leave(), Some(frame(1, 3)));
    assert_eq!(*stack.current(), frame(0, 1));
}

#[test]
fn the_roots_are_every_frames_registers() {
    let mut stack = Stack::default();
    stack.reserve(4);
    for index in 0..4 {
        stack.put(index, Value::Int(i64::from(index) * 10));
    }
    stack.enter(frame(0, 2));
    stack.enter(frame(1, 4));
    assert_eq!(stack.roots(), [0, 10, 10, 20, 30].map(Value::Int).to_vec());
    assert_eq!(frame(2, 4).roots(&[Value::Nil, Value::Nil, Value::Int(1), Value::Int(2)]), vec![Value::Int(1), Value::Int(2)]);
}

#[test]
fn settle_trims_the_results_to_what_is_wanted() {
    let mut stack = Stack::default();
    stack.reserve(6);
    for index in 0..6 {
        stack.put(index, Value::Int(i64::from(index)));
    }
    let end = settle(&mut stack, 3, 1, 3, Want::Exactly(2));
    assert_eq!(end, 3);
    assert_eq!(ints(&stack, 0, 6), [0, 3, 4, 3, 4, 5].map(Value::Int).to_vec());
}

#[test]
fn settle_pads_missing_results_with_nil_and_grows_the_stack() {
    let mut stack = Stack::default();
    stack.reserve(3);
    stack.put(2, Value::Int(9));
    let end = settle(&mut stack, 2, 1, 1, Want::Exactly(4));
    assert_eq!(end, 5);
    assert_eq!(ints(&stack, 0, 5), vec![Value::Nil, Value::Int(9), Value::Nil, Value::Nil, Value::Nil]);
}

#[test]
fn settle_of_all_results_moves_the_callers_top() {
    let mut stack = Stack::default();
    stack.reserve(5);
    stack.put(3, Value::Int(1));
    stack.put(4, Value::Int(2));
    stack.enter(frame(0, 5));
    let end = settle(&mut stack, 3, 0, 2, Want::All);
    assert_eq!(end, 2);
    assert_eq!(ints(&stack, 0, 2), vec![Value::Int(1), Value::Int(2)]);
    assert_eq!(*stack.current(), frame(0, 2));
}

#[test]
fn a_fixed_function_gets_its_parameters_and_nil_registers() {
    let mut stack = call_site(&[7, 8, 9]);
    let mut heap = Heap::default();
    let shape = Shape { params: 2, max_registers: 4, vararg: VarargKind::Fixed };
    assert_eq!(enter(&mut stack, &mut heap, 0, 3, Want::Exactly(1), shape), Ok(()));
    assert_eq!(stack.height(), 5);
    assert_eq!(ints(&stack, 1, 5), vec![Value::Int(7), Value::Int(8), Value::Nil, Value::Nil]);
    assert_eq!(
        *stack.current(),
        Frame::Lua {
            func: FuncRef::from_index(3),
            base: 1,
            top: 5,
            pc: 0,
            want: Want::Exactly(1),
            ret_to: 0,
            varargs: 0
        }
    );
}

#[test]
fn missing_arguments_are_nil() {
    let mut stack = call_site(&[7]);
    let mut heap = Heap::default();
    let shape = Shape { params: 3, max_registers: 3, vararg: VarargKind::Fixed };
    assert_eq!(enter(&mut stack, &mut heap, 0, 1, Want::All, shape), Ok(()));
    assert_eq!(ints(&stack, 1, 4), vec![Value::Int(7), Value::Nil, Value::Nil]);
}

#[test]
fn a_vararg_function_keeps_its_extra_arguments_below_the_frame() {
    let mut stack = call_site(&[1, 2, 3, 4]);
    let mut heap = Heap::default();
    let shape = Shape { params: 1, max_registers: 2, vararg: VarargKind::Anonymous };
    assert_eq!(enter(&mut stack, &mut heap, 0, 4, Want::All, shape), Ok(()));
    let Frame::Lua { base, top, varargs, .. } = *stack.current();
    assert_eq!((base, top, varargs), (5, 7, 3));
    // The extra arguments sit just below the base, and the parameter has moved up past them.
    assert_eq!(ints(&stack, base - varargs, base), [2, 3, 4].map(Value::Int).to_vec());
    assert_eq!(ints(&stack, base, top), vec![Value::Int(1), Value::Nil]);
}

#[test]
fn a_named_vararg_gets_a_table_of_the_extra_arguments() {
    let mut stack = call_site(&[1, 2, 3]);
    let mut heap = Heap::default();
    let shape = Shape { params: 1, max_registers: 3, vararg: VarargKind::Table };
    assert_eq!(enter(&mut stack, &mut heap, 0, 3, Want::All, shape), Ok(()));
    let Frame::Lua { base, varargs, .. } = *stack.current();
    assert_eq!(varargs, 2);
    assert_eq!(stack.at(base), Value::Int(1));
    let Value::Table(table) = stack.at(base + 1) else {
        panic!("no table after the parameters");
    };
    assert_eq!(heap.table_get(table, Value::Int(1)), Value::Int(2));
    assert_eq!(heap.table_get(table, Value::Int(2)), Value::Int(3));
    assert_eq!(heap.table_get(table, Value::Int(3)), Value::Nil);
    assert_eq!(heap.table_length(table), 2);
    assert_eq!(stack.at(base + 2), Value::Nil);
}

#[test]
fn a_call_past_the_depth_limit_overflows() {
    let mut stack = call_site(&[]);
    let mut heap = Heap::default();
    for _ in 0..DEPTH {
        stack.enter(frame(0, 0));
    }
    let shape = Shape { params: 0, max_registers: 1, vararg: VarargKind::Fixed };
    assert_eq!(enter(&mut stack, &mut heap, 0, 0, Want::All, shape), Err(StackOverflow));
    assert_eq!(stack.depth(), DEPTH);
    assert_eq!(stack.height(), 1);
}

/// Every index an integer loop visits, by setting it up and stepping it as the machine does.
fn visits(init: i64, limit: i64, step: i64) -> Vec<i64> {
    let mut seen = Vec::new();
    let Some(mut left) = prepare_integer(init, limit, step) else {
        return seen;
    };
    let mut index = init;
    seen.push(index);
    while let Some((next, rest)) = advance_integer(index, left, step) {
        index = next;
        left = rest;
        seen.push(index);
    }
    seen
}

#[test]
fn an_integer_loop_visits_each_step_up_to_the_limit() {
    assert_eq!(prepare_integer(1, 3, 1), Some(2));
    assert_eq!(visits(1, 3, 1), vec![1, 2, 3]);
    assert_eq!(visits(1, 10, 4), vec![1, 5, 9]);
    assert_eq!(visits(10, 1, -3), vec![10, 7, 4, 1]);
    assert_eq!(visits(5, 5, 7), vec![5]);
}

#[test]
fn an_integer_loop_past_its_limit_never_runs() {
    assert_eq!(prepare_integer(3, 1, 1), None);
    assert_eq!(prepare_integer(1, 3, -1), None);
    assert!(visits(3, 1, 1).is_empty());
}

#[test]
fn an_integer_loop_to_the_edge_of_the_range_does_not_overflow() {
    assert_eq!(visits(i64::MAX - 2, i64::MAX, 1), vec![i64::MAX - 2, i64::MAX - 1, i64::MAX]);
    assert_eq!(visits(i64::MIN + 1, i64::MIN, -1), vec![i64::MIN + 1, i64::MIN]);
    assert_eq!(visits(i64::MIN, i64::MAX, i64::MAX), vec![i64::MIN, -1, i64::MAX - 1]);
    // The count of a loop over the whole range needs all 64 bits.
    assert_eq!(prepare_integer(i64::MIN, i64::MAX, 1), Some(-1));
    assert_eq!(advance_integer(0, -1, 1), Some((1, -2)));
    assert_eq!(advance_integer(4, 0, 1), None);
}

#[test]
fn a_counted_loop_lays_out_its_slots() {
    let mut stack = Stack::default();
    stack.reserve(4);
    stack.put(0, Value::Int(1));
    stack.put(1, Value::Int(3));
    stack.put(2, Value::Int(1));
    assert_eq!(prepare_slots(&mut stack, 0, 3), Ok(true));
    assert_eq!(ints(&stack, 0, 4), [1, 2, 1, 1].map(Value::Int).to_vec());
    assert!(advance_slots(&mut stack, 0));
    assert_eq!(ints(&stack, 0, 4), [2, 1, 1, 2].map(Value::Int).to_vec());
    assert!(advance_slots(&mut stack, 0));
    assert!(!advance_slots(&mut stack, 0));
    assert_eq!(ints(&stack, 0, 4), [3, 0, 1, 3].map(Value::Int).to_vec());
}

#[test]
fn a_counted_loop_with_a_zero_step_is_refused_and_one_past_its_limit_never_runs() {
    let mut stack = Stack::default();
    stack.reserve(4);
    stack.put(0, Value::Int(1));
    stack.put(2, Value::Int(0));
    assert_eq!(prepare_slots(&mut stack, 0, 5), Err(StepZero));
    stack.put(2, Value::Int(1));
    assert_eq!(prepare_slots(&mut stack, 0, 0), Ok(false));
    assert_eq!(stack.at(1), Value::Nil);
}
