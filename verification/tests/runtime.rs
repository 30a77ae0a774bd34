use ruta::arith::{floor_div, floor_mod, shift};
use ruta::base::{in_base, select_from};
use ruta::number::trim;
use ruta::origin::{clause, Origin};
use ruta::raise::chunk;

#[test]
fn integer_division_rounds_toward_minus_infinity() {
    assert_eq!(floor_div(7, 2), 3);
    assert_eq!(floor_div(-7, 2), -4);
    assert_eq!(floor_div(7, -2), -4);
    assert_eq!(floor_div(-7, -2), 3);
    assert_eq!(floor_div(6, -3), -2);
    assert_eq!(floor_div(i64::MIN, -1), i64::MIN);
    assert_eq!(floor_div(i64::MIN, 1), i64::MIN);
}

#[test]
fn the_remainder_takes_the_sign_of_the_divisor() {
    assert_eq!(floor_mod(7, 2), 1);
    assert_eq!(floor_mod(-7, 2), 1);
    assert_eq!(floor_mod(7, -2), -1);
    assert_eq!(floor_mod(-7, -2), -1);
    assert_eq!(floor_mod(6, -3), 0);
    assert_eq!(floor_mod(i64::MIN, -1), 0);
    for (a, b) in [(13i64, 5i64), (-13, 5), (13, -5), (-13, -5)] {
        assert_eq!(b * floor_div(a, b) + floor_mod(a, b), a);
    }
}

#[test]
fn shifts_past_the_width_give_zero() {
    assert_eq!(shift(1, 3), 8);
    assert_eq!(shift(-1, -60), 15);
    assert_eq!(shift(1, 63), i64::MIN);
    assert_eq!(shift(1, 64), 0);
    assert_eq!(shift(-1, -64), 0);
}

#[test]
fn a_numeral_in_a_base_is_read_with_its_sign_and_spaces() {
    assert_eq!(in_base(b"ff", 16), Some(255));
    assert_eq!(in_base(b"  -Z  ", 36), Some(-35));
    assert_eq!(in_base(b"+101", 2), Some(5));
    assert_eq!(in_base(b"102", 2), None);
    assert_eq!(in_base(b"  ", 10), None);
    assert_eq!(in_base(b"-", 10), None);
    assert_eq!(in_base(b"1 2", 10), None);
}

#[test]
fn a_numeral_too_large_for_an_integer_wraps() {
    assert_eq!(in_base(b"ffffffffffffffff", 16), Some(-1));
    assert_eq!(in_base(b"10000000000000000", 16), Some(0));
    assert_eq!(in_base(b"-8000000000000000", 16), Some(i64::MIN));
}

#[test]
fn trailing_zeros_after_the_point_are_trimmed() {
    assert_eq!(trim(b"1.2500"), b"1.25".to_vec());
    assert_eq!(trim(b"3.000"), b"3".to_vec());
    assert_eq!(trim(b"100"), b"100".to_vec());
    assert_eq!(trim(b"-0.0"), b"-0".to_vec());
}

#[test]
fn an_origin_is_named_with_its_kind() {
    assert_eq!(Origin::Local(b"x".to_vec()).render(), b"local 'x'".to_vec());
    assert_eq!(Origin::Global(b"print".to_vec()).render(), b"global 'print'".to_vec());
    assert_eq!(Origin::Method(b"m".to_vec()).parts().0, "method");
    assert_eq!(Origin::Field(b"f".to_vec()).name(), b"f".to_vec());
    assert_eq!(clause(Some(b"upvalue 'u'".to_vec())), b" (upvalue 'u')".to_vec());
    assert_eq!(clause(None), Vec::<u8>::new());
}

#[test]
fn a_short_chunk_name_is_shown_whole_without_its_mark() {
    assert_eq!(chunk(b"=stdin"), b"stdin");
    assert_eq!(chunk(b"@script.lua"), b"script.lua");
    assert_eq!(chunk(b"="), b"");
}

#[test]
fn a_long_file_name_keeps_its_tail_and_any_other_name_its_head() {
    let long: Vec<u8> = (0..70u8).map(|i| b'a' + i % 26).collect();
    let mut file = b"@".to_vec();
    file.extend_from_slice(&long);
    let shown = chunk(&file);
    assert_eq!(shown.len(), 59);
    assert_eq!(&shown[..3], b"...");
    assert_eq!(&shown[3..], &long[70 - 56..]);

    let mut named = b"=".to_vec();
    named.extend_from_slice(&long);
    assert_eq!(chunk(&named), &long[..59]);

    let exact: Vec<u8> = std::iter::once(b'@').chain(long[..59].iter().copied()).collect();
    assert_eq!(chunk(&exact), &long[..59]);
}

#[test]
fn select_counts_from_either_end() {
    assert_eq!(select_from(1, 3), Some(1));
    assert_eq!(select_from(2, 3), Some(2));
    assert_eq!(select_from(5, 3), Some(3));
    assert_eq!(select_from(-1, 3), Some(2));
    assert_eq!(select_from(-3, 3), None);
    assert_eq!(select_from(0, 3), None);
    assert_eq!(select_from(i64::MIN, 3), None);
    assert_eq!(select_from(i64::MAX, 0), None);
}
