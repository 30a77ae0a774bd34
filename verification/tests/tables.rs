use ruta::heap::string::Heap;
use ruta::heap::table::size::{array_is_worth_it, best_array_size, bucket_of, nodes_for};
use ruta::heap::table::{InvalidKey, KeyError};
use ruta::value::Value;

fn float(number: f64) -> Value {
    Value::Float(number.to_bits())
}

#[test]
fn a_new_table_holds_nothing() {
    let mut heap = Heap::default();
    let table = heap.new_table(4, 4);

    assert!(matches!(heap.table_get(table, Value::Int(1)), Value::Nil));
    assert!(matches!(heap.table_get(table, Value::Bool(true)), Value::Nil));
    assert_eq!(heap.table_length(table), 0);
    assert!(matches!(heap.table_next(table, Value::Nil), Ok(None)));
}

#[test]
fn a_written_value_reads_back() {
    let mut heap = Heap::default();
    let table = heap.new_table(0, 0);
    let key = heap.new_string(b"name");

    assert_eq!(heap.table_set(table, Value::Str(key), Value::Int(7)), Ok(()));
    assert!(matches!(heap.table_get(table, Value::Str(key)), Value::Int(7)));

    // Another handle to equal bytes names the same key.
    let again = heap.new_string(b"name");
    assert!(matches!(heap.table_get(table, Value::Str(again)), Value::Int(7)));
}

#[test]
fn writing_one_key_leaves_the_others() {
    let mut heap = Heap::default();
    let table = heap.new_table(0, 0);

    heap.table_set(table, Value::Int(1), Value::Int(10)).unwrap();
    heap.table_set(table, Value::Bool(false), Value::Int(20)).unwrap();
    heap.table_set(table, Value::Int(1), Value::Int(30)).unwrap();

    assert!(matches!(heap.table_get(table, Value::Int(1)), Value::Int(30)));
    assert!(matches!(heap.table_get(table, Value::Bool(false)), Value::Int(20)));
    assert!(matches!(heap.table_get(table, Value::Bool(true)), Value::Nil));
}

#[test]
fn writing_nil_erases() {
    let mut heap = Heap::default();
    let table = heap.new_table(0, 0);

    heap.table_set(table, Value::Int(5), Value::Bool(true)).unwrap();
    heap.table_set(table, Value::Int(5), Value::Nil).unwrap();

    assert!(matches!(heap.table_get(table, Value::Int(5)), Value::Nil));
    assert!(matches!(heap.table_next(table, Value::Nil), Ok(None)));
}

#[test]
fn erasing_a_missing_key_changes_nothing() {
    let mut heap = Heap::default();
    let table = heap.new_table(0, 0);

    heap.table_set(table, Value::Int(9), Value::Nil).unwrap();

    assert!(matches!(heap.table_next(table, Value::Nil), Ok(None)));
    assert_eq!(heap.table_length(table), 0);
}

#[test]
fn nil_and_nan_are_no_keys() {
    let mut heap = Heap::default();
    let table = heap.new_table(0, 0);

    assert_eq!(heap.table_set(table, Value::Nil, Value::Int(1)), Err(KeyError::Nil));
    assert_eq!(heap.table_set(table, float(f64::NAN), Value::Int(1)), Err(KeyError::Nan));
    assert!(matches!(heap.table_get(table, Value::Nil), Value::Nil));
    assert!(matches!(heap.table_get(table, float(f64::NAN)), Value::Nil));
}

#[test]
fn an_integral_float_is_the_integer_key() {
    let mut heap = Heap::default();
    let table = heap.new_table(0, 0);

    heap.table_set(table, float(2.0), Value::Int(4)).unwrap();
    assert!(matches!(heap.table_get(table, Value::Int(2)), Value::Int(4)));

    heap.table_set(table, Value::Int(3), Value::Int(9)).unwrap();
    assert!(matches!(heap.table_get(table, float(3.0)), Value::Int(9)));

    // A float with a fraction is a key of its own.
    heap.table_set(table, float(2.5), Value::Int(6)).unwrap();
    assert!(matches!(heap.table_get(table, float(2.5)), Value::Int(6)));
    assert!(matches!(heap.table_get(table, Value::Int(2)), Value::Int(4)));
}

#[test]
fn many_keys_survive_every_rebuild() {
    let mut heap = Heap::default();
    let table = heap.new_table(0, 0);

    for i in 1..=300i64 {
        heap.table_set(table, Value::Int(i), Value::Int(i * 2)).unwrap();
    }
    for i in 1..=50i64 {
        heap.table_set(table, float(i as f64 + 0.5), Value::Int(-i)).unwrap();
    }

    for i in 1..=300i64 {
        assert!(matches!(heap.table_get(table, Value::Int(i)), Value::Int(v) if v == i * 2));
    }
    for i in 1..=50i64 {
        assert!(matches!(heap.table_get(table, float(i as f64 + 0.5)), Value::Int(v) if v == -i));
    }
    assert!(matches!(heap.table_get(table, Value::Int(301)), Value::Nil));
}

#[test]
fn a_sequence_has_its_count_as_length() {
    let mut heap = Heap::default();
    let table = heap.new_table(0, 0);

    for i in 1..=10i64 {
        heap.table_set(table, Value::Int(i), Value::Bool(true)).unwrap();
    }
    assert_eq!(heap.table_length(table), 10);

    // Built in the array part from the start.
    let array = heap.new_table(4, 0);
    for i in 1..=3i64 {
        heap.table_set(array, Value::Int(i), Value::Int(i)).unwrap();
    }
    assert_eq!(heap.table_length(array), 3);
}

#[test]
fn the_length_is_a_border() {
    let mut heap = Heap::default();
    let table = heap.new_table(0, 0);

    for i in [1i64, 2, 3, 5, 6] {
        heap.table_set(table, Value::Int(i), Value::Bool(true)).unwrap();
    }
    let length = heap.table_length(table);

    assert!(length == 3 || length == 6);
    assert!(!matches!(heap.table_get(table, Value::Int(length)), Value::Nil));
    assert!(matches!(heap.table_get(table, Value::Int(length + 1)), Value::Nil));
}

#[test]
fn a_table_without_key_one_has_a_border_still() {
    let mut heap = Heap::default();
    let table = heap.new_table(0, 0);

    heap.table_set(table, Value::Bool(true), Value::Bool(true)).unwrap();
    assert_eq!(heap.table_length(table), 0);

    // Both 0 and 2 are borders here: key 2 holds something and key 3 nothing.
    heap.table_set(table, Value::Int(2), Value::Bool(true)).unwrap();
    let length = heap.table_length(table);
    assert!(length == 0 || length == 2);
}

#[test]
fn next_walks_every_entry_once() {
    let mut heap = Heap::default();
    let table = heap.new_table(0, 0);
    let name = heap.new_string(b"x");

    heap.table_set(table, Value::Int(1), Value::Int(100)).unwrap();
    heap.table_set(table, Value::Int(2), Value::Int(200)).unwrap();
    heap.table_set(table, Value::Str(name), Value::Int(300)).unwrap();
    heap.table_set(table, Value::Bool(true), Value::Int(400)).unwrap();

    let mut seen = Vec::new();
    let mut key = Value::Nil;
    while let Some((next_key, value)) = heap.table_next(table, key).unwrap() {
        if let Value::Int(v) = value {
            seen.push(v);
        }
        key = next_key;
    }
    seen.sort();

    assert_eq!(seen, vec![100, 200, 300, 400]);
}

#[test]
fn next_refuses_a_key_the_table_lacks() {
    let mut heap = Heap::default();
    let table = heap.new_table(0, 0);

    heap.table_set(table, Value::Int(1), Value::Int(1)).unwrap();

    assert_eq!(heap.table_next(table, Value::Bool(true)), Err(InvalidKey));
    assert!(matches!(heap.table_next(table, Value::Int(1)), Ok(None)));
}

#[test]
fn tables_are_separate() {
    let mut heap = Heap::default();
    let first = heap.new_table(0, 0);
    let second = heap.new_table(0, 0);

    heap.table_set(first, Value::Int(1), Value::Int(1)).unwrap();

    assert!(matches!(heap.table_get(second, Value::Int(1)), Value::Nil));
}

#[test]
fn buckets_are_ceiling_powers_of_two() {
    assert_eq!(bucket_of(0), None);
    assert_eq!(bucket_of(-3), None);
    assert_eq!(bucket_of(1), Some(0));
    assert_eq!(bucket_of(2), Some(1));
    assert_eq!(bucket_of(3), Some(2));
    assert_eq!(bucket_of(4), Some(2));
    assert_eq!(bucket_of(5), Some(3));
    assert_eq!(bucket_of(i64::MAX), Some(63));
}

#[test]
fn node_counts_are_powers_of_two_above_the_keys() {
    assert_eq!(nodes_for(0), 0);
    assert_eq!(nodes_for(1), 2);
    assert_eq!(nodes_for(3), 4);
    assert_eq!(nodes_for(4), 8);
    assert_eq!(nodes_for(7), 8);
}

#[test]
fn the_array_takes_the_keys_that_pay_for_it() {
    // Keys 1, 2, 3: slices 0, 1 and 2 hold one key each.
    let mut counts = [0usize; 64];
    counts[0] = 1;
    counts[1] = 1;
    counts[2] = 1;
    assert_eq!(best_array_size(&counts, 3), (4, 3));

    // One key far out never pays for an array.
    let mut far = [0usize; 64];
    far[40] = 1;
    assert_eq!(best_array_size(&far, 1), (0, 0));

    assert!(array_is_worth_it(0, 0));
    assert!(!array_is_worth_it(1 << 40, 1));
}
