use minheap::marshal::a_big_tuple;
use minheap::marshal::a_small_tuple;
use minheap::marshal::a_struct;
use minheap::marshal::big_array;
use minheap::marshal::slice;
use minheap::marshal::small_array;
use minheap::marshal::string;

#[test]
fn slice_is_the_table_window() {
    assert_eq!(slice(), vec![2u8, 3, 4]);
}

#[test]
fn string_is_the_greeting() {
    assert_eq!(string(), "hello");
}

#[test]
fn struct_fields_are_fixed() {
    let s = a_struct();
    assert_eq!(s.a, 1);
    assert_eq!(s.b, 2);
    assert_eq!(s.c, 3);
}

#[test]
fn small_tuple_shifts_components() {
    assert_eq!(a_small_tuple((0, 0)), (1, 2));
    assert_eq!(a_small_tuple((10, 20)), (11, 22));
    assert_eq!(a_small_tuple((254, 253)), (255, 255));
}

#[test]
fn big_tuple_shifts_components() {
    assert_eq!(a_big_tuple((0, 0, 0)), (1, 2, 3));
    assert_eq!(
        a_big_tuple((u32::MAX - 1, u32::MAX - 2, u32::MAX - 3)),
        (u32::MAX, u32::MAX, u32::MAX)
    );
}

#[test]
fn big_array_is_the_table() {
    assert_eq!(big_array(), [1u8, 2, 3, 4, 5, 6, 7, 8, 9, 0]);
}

#[test]
fn small_array_is_fixed() {
    assert_eq!(small_array(), [1u8, 2]);
}
