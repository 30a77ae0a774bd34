use ruta::heap::string::{Heap, SHORT_STRING_MAX};
use ruta::heap::{hash_bytes, hash_seed};

#[test]
fn a_string_survives_a_round_trip() {
    let mut heap = Heap::default();
    let handle = heap.new_string(b"hello");

    assert_eq!(heap.string(handle).as_bytes(), b"hello");
    assert_eq!(heap.string(handle).len(), 5);
}

#[test]
fn a_string_may_contain_nul() {
    let mut heap = Heap::default();
    let handle = heap.new_string(b"a\0b");

    // The length is stored, so the embedded NUL does not end the string.
    assert_eq!(heap.string(handle).len(), 3);
    assert_eq!(heap.string(handle).as_bytes(), b"a\0b");
}

#[test]
fn a_string_is_nul_terminated_for_the_c_abi() {
    let mut heap = Heap::default();
    let handle = heap.new_string(b"abc");
    let string = heap.string(handle);

    assert_eq!(string.as_bytes_with_nul()[string.len()], 0);
}

#[test]
fn the_empty_string_is_a_string() {
    let mut heap = Heap::default();
    let handle = heap.new_string(b"");

    assert!(heap.string(handle).is_empty());
    assert_eq!(heap.string(handle).as_bytes(), b"");
}

#[test]
fn equal_short_strings_are_one_object() {
    let mut heap = Heap::default();
    let first = heap.new_string(b"x");
    let second = heap.new_string(b"x");

    assert_eq!(first, second);
    assert_eq!(heap.len(), 1);
}

#[test]
fn the_hash_depends_on_every_byte() {
    assert_ne!(hash_bytes(b"ab"), hash_bytes(b"ba"));
    assert_ne!(hash_bytes(b"a"), hash_bytes(b"a\0"));
    assert_eq!(hash_bytes(b"hello"), hash_bytes(b"hello"));
}

#[test]
fn the_hash_of_the_empty_string_is_the_seed() {
    // Folded, but still the seed and nothing else: an empty string must not collide
    // with whatever a zeroed buffer would produce.
    assert_eq!(
        hash_bytes(b""),
        ((hash_seed() >> 32) as u32) ^ (hash_seed() as u32)
    );
}

#[test]
fn long_strings_are_not_interned() {
    let mut heap = Heap::default();
    let long = vec![b'x'; SHORT_STRING_MAX + 1];

    let first = heap.new_string(&long);
    let second = heap.new_string(&long);

    assert_ne!(first, second);
    assert_eq!(
        heap.string(first).as_bytes(),
        heap.string(second).as_bytes()
    );
}

#[test]
fn the_boundary_itself_is_interned() {
    let mut heap = Heap::default();
    let at_limit = vec![b'x'; SHORT_STRING_MAX];

    assert_eq!(heap.new_string(&at_limit), heap.new_string(&at_limit));
}

#[test]
fn interning_compares_bytes_and_not_just_hashes() {
    let mut heap = Heap::default();
    let first = heap.new_string(b"ab");
    let second = heap.new_string(b"ba");

    assert_ne!(first, second);
    assert_eq!(heap.string(first).as_bytes(), b"ab");
    assert_eq!(heap.string(second).as_bytes(), b"ba");
}

#[test]
fn a_string_with_nul_interns_by_its_whole_content() {
    let mut heap = Heap::default();

    // The NUL is part of the value, so these are two different strings.
    assert_ne!(heap.new_string(b"a\0b"), heap.new_string(b"a"));
    assert_eq!(heap.new_string(b"a\0b"), heap.new_string(b"a\0b"));
}

#[test]
fn the_table_survives_growing() {
    let mut heap = Heap::default();
    let handles: Vec<_> = (0..200u32)
        .map(|i| heap.new_string(i.to_string().as_bytes()))
        .collect();

    // Every one of them is still findable, and asking again returns the same handle.
    for (i, handle) in handles.iter().enumerate() {
        let again = heap.new_string(i.to_string().as_bytes());
        assert_eq!(*handle, again);
    }

    assert_eq!(heap.len(), 200);
}

#[test]
fn the_hash_of_one_byte_is_fnv_1a_folded() {
    // FNV-1a of [0x61] is 0xaf63dc4c8601ec8c; folded: 0xaf63dc4c ^ 0x8601ec8c.
    assert_eq!(hash_bytes(b"a"), 0xaf63_dc4c ^ 0x8601_ec8c);
}

#[test]
fn a_string_remembers_its_hash() {
    let mut heap = Heap::default();
    let handle = heap.new_string(b"hello");

    assert_eq!(heap.string(handle).hash(), hash_bytes(b"hello"));
}

#[test]
fn handles_count_up_from_zero() {
    let mut heap = Heap::default();
    assert!(heap.is_empty());
    let first = heap.new_string(b"one");
    let second = heap.new_string(b"two");

    assert_eq!(first.index(), 0);
    assert_eq!(second.index(), 1);
    assert!(!heap.is_empty());
}

#[test]
fn a_long_string_and_a_short_one_never_share_a_handle() {
    let mut heap = Heap::default();
    let long = vec![b'y'; SHORT_STRING_MAX + 5];
    let short = heap.new_string(b"y");
    let big = heap.new_string(&long);

    assert_ne!(short, big);
    assert_eq!(heap.string(big).len(), SHORT_STRING_MAX + 5);
}
