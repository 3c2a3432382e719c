//! Marshalling helpers: small values of each shape a scalar-only calling
//! convention has to carry — a byte window, a string, a struct, tuples and
//! arrays.

use vstd::prelude::*;

verus! {

/// A small aggregate of plain scalars.
pub struct MyStruct {
    pub a: u32,
    pub b: u32,
    pub c: u8,
}

/// The second through fourth entries of the fixed ten-byte table that
/// `big_array` returns whole.
pub fn slice() -> (r: Vec<u8>)
    ensures
        r@ == seq![2u8, 3u8, 4u8],
{
    let mut v: Vec<u8> = Vec::new();
    v.push(2);
    v.push(3);
    v.push(4);
    proof {
        assert(v@ =~= seq![2u8, 3u8, 4u8]);
    }
    v
}

/// A fixed greeting.
pub fn string() -> (r: &'static str)
    ensures
        r@ == "hello"@,
{
    "hello"
}

/// A fixed sample struct.
pub fn a_struct() -> (r: MyStruct)
    ensures
        r.a == 1,
        r.b == 2,
        r.c == 3,
{
    MyStruct { a: 1, b: 2, c: 3 }
}

/// Shifts both components of a narrow pair by fixed offsets.
pub fn a_small_tuple(x: (u8, u8)) -> (r: (u8, u8))
    requires
        x.0 + 1 <= u8::MAX,
        x.1 + 2 <= u8::MAX,
    ensures
        r.0 == x.0 + 1,
        r.1 == x.1 + 2,
{
    (x.0 + 1, x.1 + 2)
}

/// Shifts all three components of a wide triple by fixed offsets.
pub fn a_big_tuple(x: (u32, u32, u32)) -> (r: (u32, u32, u32))
    requires
        x.0 + 1 <= u32::MAX,
        x.1 + 2 <= u32::MAX,
        x.2 + 3 <= u32::MAX,
    ensures
        r.0 == x.0 + 1,
        r.1 == x.1 + 2,
        r.2 == x.2 + 3,
{
    (x.0 + 1, x.1 + 2, x.2 + 3)
}

/// The fixed ten-byte table.
pub fn big_array() -> (r: [u8; 10])
    ensures
        r@ == seq![1u8, 2u8, 3u8, 4u8, 5u8, 6u8, 7u8, 8u8, 9u8, 0u8],
{
    let r: [u8; 10] = [1, 2, 3, 4, 5, 6, 7, 8, 9, 0];
    proof {
        assert(r@ =~= seq![1u8, 2u8, 3u8, 4u8, 5u8, 6u8, 7u8, 8u8, 9u8, 0u8]);
    }
    r
}

/// A fixed two-byte array.
pub fn small_array() -> (r: [u8; 2])
    ensures
        r@ == seq![1u8, 2u8],
{
    let r: [u8; 2] = [1, 2];
    proof {
        assert(r@ =~= seq![1u8, 2u8]);
    }
    r
}

} // verus!
