use ruta::heap::string::Heap;
use ruta::instr::{define_global, jump_target, store, DefineFault, StoreFault};
use ruta::value::Value;

#[test]
fn a_jump_lands_offset_past_the_next_instruction() {
    assert_eq!(jump_target(10, 5), Some(15));
    assert_eq!(jump_target(10, -10), Some(0));
    assert_eq!(jump_target(10, -11), None);
    assert_eq!(jump_target(u32::MAX, 1), None);
}

#[test]
fn a_store_writes_a_table_and_refuses_the_rest() {
    let mut heap = Heap::default();
    let table = heap.new_table(0, 0);
    assert_eq!(store(&mut heap, Value::Table(table), Value::Int(1), Value::Bool(true)), Ok(()));
    assert_eq!(heap.table_get(table, Value::Int(1)), Value::Bool(true));
    assert_eq!(store(&mut heap, Value::Int(3), Value::Int(1), Value::Nil), Err(StoreFault::NotATable));
    assert_eq!(store(&mut heap, Value::Table(table), Value::Nil, Value::Nil), Err(StoreFault::NilKey));
    let nan = Value::Float(f64::NAN.to_bits());
    assert_eq!(store(&mut heap, Value::Table(table), nan, Value::Nil), Err(StoreFault::NanKey));
}

#[test]
fn a_global_is_defined_once_and_false_counts() {
    let mut heap = Heap::default();
    let env = heap.new_table(0, 0);
    let name = heap.new_string(b"x");
    assert_eq!(define_global(&mut heap, Value::Table(env), Value::Str(name), Value::Bool(false)), Ok(()));
    assert_eq!(
        define_global(&mut heap, Value::Table(env), Value::Str(name), Value::Int(1)),
        Err(DefineFault::AlreadyDefined)
    );
    assert_eq!(heap.table_get(env, Value::Str(name)), Value::Bool(false));
    assert_eq!(
        define_global(&mut heap, Value::Nil, Value::Str(name), Value::Int(1)),
        Err(DefineFault::Store(StoreFault::NotATable))
    );
}
