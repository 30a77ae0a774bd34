use ruta::heap::string::Heap;
use ruta::ops::{
    bitwise, complement, integer, integer_arith, length, string_less, Bitwise, BitwiseFault, Blame, IntArith, ZeroDivisor,
};
use ruta::value::Value;

fn float(number: f64) -> Value {
    Value::Float(number.to_bits())
}

#[test]
fn a_float_is_an_integer_operand_only_when_whole() {
    assert_eq!(integer(Value::Int(-3)), Some(-3));
    assert_eq!(integer(float(4.0)), Some(4));
    assert_eq!(integer(float(-0.0)), Some(0));
    assert_eq!(integer(float(4.5)), None);
    assert_eq!(integer(float(9.3e18)), None);
    assert_eq!(integer(float(f64::NAN)), None);
    assert_eq!(integer(Value::Bool(true)), None);
}

#[test]
fn the_bitwise_operators_work_on_the_integers() {
    assert_eq!(bitwise(Bitwise::And, Value::Int(0b1100), Value::Int(0b1010)), Ok(0b1000));
    assert_eq!(bitwise(Bitwise::Or, Value::Int(0b1100), float(3.0)), Ok(0b1111));
    assert_eq!(bitwise(Bitwise::Xor, Value::Int(-1), Value::Int(5)), Ok(!5));
    assert_eq!(bitwise(Bitwise::Shl, Value::Int(1), Value::Int(62)), Ok(1 << 62));
    assert_eq!(bitwise(Bitwise::Shl, Value::Int(1), Value::Int(64)), Ok(0));
    assert_eq!(bitwise(Bitwise::Shr, Value::Int(-1), Value::Int(60)), Ok(0xf));
    assert_eq!(bitwise(Bitwise::Shr, Value::Int(1), Value::Int(-3)), Ok(8));
    assert_eq!(complement(Value::Int(0)), Ok(-1));
}

#[test]
fn a_refused_bitwise_operation_blames_the_right_operand() {
    assert_eq!(bitwise(Bitwise::And, float(1.5), Value::Int(1)), Err(BitwiseFault::NoInteger(Blame::Left)));
    assert_eq!(bitwise(Bitwise::And, Value::Int(1), float(1.5)), Err(BitwiseFault::NoInteger(Blame::Right)));
    assert_eq!(bitwise(Bitwise::Or, Value::Nil, Value::Int(1)), Err(BitwiseFault::NotANumber(Blame::Left)));
    assert_eq!(bitwise(Bitwise::Or, float(1.5), Value::Bool(false)), Err(BitwiseFault::NotANumber(Blame::Right)));
    assert_eq!(complement(float(0.5)), Err(BitwiseFault::NoInteger(Blame::Left)));
    assert_eq!(complement(Value::Nil), Err(BitwiseFault::NotANumber(Blame::Left)));
}

#[test]
fn integer_arithmetic_wraps_and_floors() {
    assert_eq!(integer_arith(IntArith::Add, i64::MAX, 1), Ok(i64::MIN));
    assert_eq!(integer_arith(IntArith::Sub, 3, 5), Ok(-2));
    assert_eq!(integer_arith(IntArith::Mul, i64::MAX, 2), Ok(-2));
    assert_eq!(integer_arith(IntArith::IDiv, 7, -2), Ok(-4));
    assert_eq!(integer_arith(IntArith::Mod, -7, 3), Ok(2));
    assert_eq!(integer_arith(IntArith::IDiv, i64::MIN, -1), Ok(i64::MIN));
}

#[test]
fn integer_division_by_zero_is_refused() {
    assert_eq!(integer_arith(IntArith::IDiv, 1, 0), Err(ZeroDivisor::Divide));
    assert_eq!(integer_arith(IntArith::Mod, 1, 0), Err(ZeroDivisor::Modulo));
    assert_eq!(ZeroDivisor::Divide.message(), "attempt to divide by zero");
    assert_eq!(ZeroDivisor::Modulo.message(), "attempt to perform 'n%0'");
}

#[test]
fn strings_order_by_their_bytes() {
    assert!(string_less(b"a", b"b"));
    assert!(string_less(b"ab", b"abc"));
    assert!(!string_less(b"abc", b"ab"));
    assert!(!string_less(b"same", b"same"));
    assert!(string_less(b"", b"x"));
    assert!(string_less(b"Z", b"a"));
}

#[test]
fn the_length_of_a_string_and_of_a_table() {
    let mut heap = Heap::default();
    let text = heap.new_string(b"hello");
    let table = heap.new_table(0, 0);
    for key in 1..=3 {
        heap.table_set(table, Value::Int(key), Value::Bool(true)).unwrap();
    }
    assert_eq!(length(&heap, Value::Str(text)), Some(5));
    assert_eq!(length(&heap, Value::Table(table)), Some(3));
    assert_eq!(length(&heap, Value::Int(3)), None);
}
