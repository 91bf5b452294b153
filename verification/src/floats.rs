//! Floating-point numbers held as bits: when two of them are equal. What is no
//! number equals nothing, not even itself, and the two zeros are equal.

use vstd::prelude::*;

verus! {

/// The bits of an `f32` stand for a number.
pub open spec fn f32_is_number(bits: u32) -> bool {
    bits % 0x8000_0000 <= 0x7F80_0000
}

/// The bits of an `f32` stand for zero, of either sign.
pub open spec fn f32_is_zero(bits: u32) -> bool {
    bits % 0x8000_0000 == 0
}

/// The numbers behind two `f32` are equal.
pub open spec fn f32_equal(a: u32, b: u32) -> bool {
    f32_is_number(a) && f32_is_number(b) && (a == b || (f32_is_zero(a) && f32_is_zero(b)))
}

/// The bits of an `f64` stand for a number.
pub open spec fn f64_is_number(bits: u64) -> bool {
    bits % 0x8000_0000_0000_0000 <= 0x7FF0_0000_0000_0000
}

/// The bits of an `f64` stand for zero, of either sign.
pub open spec fn f64_is_zero(bits: u64) -> bool {
    bits % 0x8000_0000_0000_0000 == 0
}

/// The numbers behind two `f64` are equal.
pub open spec fn f64_equal(a: u64, b: u64) -> bool {
    f64_is_number(a) && f64_is_number(b) && (a == b || (f64_is_zero(a) && f64_is_zero(b)))
}

/// The numbers of two triples are equal, each to each.
pub open spec fn f32s_equal(a: [u32; 3], b: [u32; 3]) -> bool {
    f32_equal(a@[0], b@[0]) && f32_equal(a@[1], b@[1]) && f32_equal(a@[2], b@[2])
}

/// The numbers of two triples are equal, each to each.
pub open spec fn f64s_equal(a: [u64; 3], b: [u64; 3]) -> bool {
    f64_equal(a@[0], b@[0]) && f64_equal(a@[1], b@[1]) && f64_equal(a@[2], b@[2])
}

/// Whether the numbers behind two `f32` are equal.
pub fn same_f32(a: u32, b: u32) -> (r: bool)
    ensures
        r == f32_equal(a, b),
{
    let sized_a: u32 = a % 0x8000_0000;
    let sized_b: u32 = b % 0x8000_0000;
    sized_a <= 0x7F80_0000 && sized_b <= 0x7F80_0000 && (a == b || (sized_a == 0 && sized_b == 0))
}

/// Whether the numbers behind two `f64` are equal.
pub fn same_f64(a: u64, b: u64) -> (r: bool)
    ensures
        r == f64_equal(a, b),
{
    let sized_a: u64 = a % 0x8000_0000_0000_0000;
    let sized_b: u64 = b % 0x8000_0000_0000_0000;
    sized_a <= 0x7FF0_0000_0000_0000 && sized_b <= 0x7FF0_0000_0000_0000 && (a == b || (sized_a
        == 0 && sized_b == 0))
}

/// Whether the numbers of two triples are equal.
pub fn same_f32s(a: &[u32; 3], b: &[u32; 3]) -> (r: bool)
    ensures
        r == f32s_equal(*a, *b),
{
    same_f32(a[0], b[0]) && same_f32(a[1], b[1]) && same_f32(a[2], b[2])
}

/// Whether the numbers of two triples are equal.
pub fn same_f64s(a: &[u64; 3], b: &[u64; 3]) -> (r: bool)
    ensures
        r == f64s_equal(*a, *b),
{
    same_f64(a[0], b[0]) && same_f64(a[1], b[1]) && same_f64(a[2], b[2])
}

/// A number equals itself exactly if it is one, zeros of both signs are equal,
/// and any other two numbers are equal only if their bits are.
pub proof fn lemma_f32_equality(a: u32, b: u32)
    ensures
        f32_equal(a, a) <==> !(0x7F80_0000 < a < 0x8000_0000) && !(a > 0xFF80_0000),
        f32_equal(0, 0x8000_0000),
        f32_equal(a, b) == f32_equal(b, a),
        f32_equal(a, b) ==> a == b || (a % 0x8000_0000 == 0 && b % 0x8000_0000 == 0),
        f32_equal(a, b) && a != b ==> f32_equal(a, 0),
{
}

/// A number equals itself exactly if it is one, zeros of both signs are equal,
/// and any other two numbers are equal only if their bits are.
pub proof fn lemma_f64_equality(a: u64, b: u64)
    ensures
        f64_equal(a, a) <==> !(0x7FF0_0000_0000_0000 < a < 0x8000_0000_0000_0000) && !(a
            > 0xFFF0_0000_0000_0000),
        f64_equal(0, 0x8000_0000_0000_0000),
        f64_equal(a, b) == f64_equal(b, a),
        f64_equal(a, b) ==> a == b || (a % 0x8000_0000_0000_0000 == 0 && b % 0x8000_0000_0000_0000
            == 0),
        f64_equal(a, b) && a != b ==> f64_equal(a, 0),
{
}

/// Triples are equal exactly if all three numbers are, each to its own.
pub proof fn lemma_triples_are_equal(a: [u32; 3], b: [u32; 3], c: [u64; 3], d: [u64; 3])
    ensures
        f32s_equal(a, b) <==> forall|i: int| 0 <= i < 3 ==> f32_equal(#[trigger] a@[i], b@[i]),
        f64s_equal(c, d) <==> forall|i: int| 0 <= i < 3 ==> f64_equal(#[trigger] c@[i], d@[i]),
{
    if f32s_equal(a, b) {
        assert forall|i: int| 0 <= i < 3 implies f32_equal(#[trigger] a@[i], b@[i]) by {}
    }
    if f64s_equal(c, d) {
        assert forall|i: int| 0 <= i < 3 implies f64_equal(#[trigger] c@[i], d@[i]) by {}
    }
}

} // verus!
