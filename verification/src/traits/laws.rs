use crate::traits::monoid::Size;
use crate::traits::semigroup::{Max, Min, Product, Semigroup, Sum};
use vstd::prelude::*;

verus! {

/// `a` and `b` leave the same remainder modulo `m`.
pub open spec fn congruent(a: int, b: int, m: int) -> bool {
    (a - b) % m == 0
}

/// A multiple of `m` is congruent to zero.
proof fn lemma_multiple_congruent(a: int, b: int, k: int, m: int)
    requires
        m > 0,
        a == b + k * m,
    ensures
        congruent(a, b, m),
{
    vstd::arithmetic::div_mod::lemma_mod_multiples_basic(k, m);
}

/// Merging two present values of `Max<i8>` keeps the larger one, and `NegInf` changes
/// nothing.
pub proof fn lemma_max_i8_keeps_larger(x: i8, y: i8, m: Max<i8>)
    ensures
        Max::Has(x).spec_merge(Max::Has(y)) matches Max::Has(z) && z >= x && z >= y && (z == x || z == y),
        Max::<i8>::NegInf.spec_merge(m) == m,
        m.spec_merge(Max::<i8>::NegInf) == m,
{
}

/// Merging two present values of `Min<i8>` keeps the smaller one, and `Inf` changes nothing.
pub proof fn lemma_min_i8_keeps_smaller(x: i8, y: i8, m: Min<i8>)
    ensures
        Min::Has(x).spec_merge(Min::Has(y)) matches Min::Has(z) && z <= x && z <= y && (z == x || z == y),
        Min::<i8>::Inf.spec_merge(m) == m,
        m.spec_merge(Min::<i8>::Inf) == m,
{
}

/// Merging two present values of `Max<i16>` keeps the larger one, and `NegInf` changes
/// nothing.
pub proof fn lemma_max_i16_keeps_larger(x: i16, y: i16, m: Max<i16>)
    ensures
        Max::Has(x).spec_merge(Max::Has(y)) matches Max::Has(z) && z >= x && z >= y && (z == x || z == y),
        Max::<i16>::NegInf.spec_merge(m) == m,
        m.spec_merge(Max::<i16>::NegInf) == m,
{
}

/// Merging two present values of `Min<i16>` keeps the smaller one, and `Inf` changes nothing.
pub proof fn lemma_min_i16_keeps_smaller(x: i16, y: i16, m: Min<i16>)
    ensures
        Min::Has(x).spec_merge(Min::Has(y)) matches Min::Has(z) && z <= x && z <= y && (z == x || z == y),
        Min::<i16>::Inf.spec_merge(m) == m,
        m.spec_merge(Min::<i16>::Inf) == m,
{
}

/// Merging two present values of `Max<i32>` keeps the larger one, and `NegInf` changes
/// nothing.
pub proof fn lemma_max_i32_keeps_larger(x: i32, y: i32, m: Max<i32>)
    ensures
        Max::Has(x).spec_merge(Max::Has(y)) matches Max::Has(z) && z >= x && z >= y && (z == x || z == y),
        Max::<i32>::NegInf.spec_merge(m) == m,
        m.spec_merge(Max::<i32>::NegInf) == m,
{
}

/// Merging two present values of `Min<i32>` keeps the smaller one, and `Inf` changes nothing.
pub proof fn lemma_min_i32_keeps_smaller(x: i32, y: i32, m: Min<i32>)
    ensures
        Min::Has(x).spec_merge(Min::Has(y)) matches Min::Has(z) && z <= x && z <= y && (z == x || z == y),
        Min::<i32>::Inf.spec_merge(m) == m,
        m.spec_merge(Min::<i32>::Inf) == m,
{
}

/// Merging two present values of `Max<i64>` keeps the larger one, and `NegInf` changes
/// nothing.
pub proof fn lemma_max_i64_keeps_larger(x: i64, y: i64, m: Max<i64>)
    ensures
        Max::Has(x).spec_merge(Max::Has(y)) matches Max::Has(z) && z >= x && z >= y && (z == x || z == y),
        Max::<i64>::NegInf.spec_merge(m) == m,
        m.spec_merge(Max::<i64>::NegInf) == m,
{
}

/// Merging two present values of `Min<i64>` keeps the smaller one, and `Inf` changes nothing.
pub proof fn lemma_min_i64_keeps_smaller(x: i64, y: i64, m: Min<i64>)
    ensures
        Min::Has(x).spec_merge(Min::Has(y)) matches Min::Has(z) && z <= x && z <= y && (z == x || z == y),
        Min::<i64>::Inf.spec_merge(m) == m,
        m.spec_merge(Min::<i64>::Inf) == m,
{
}

/// Merging two present values of `Max<i128>` keeps the larger one, and `NegInf` changes
/// nothing.
pub proof fn lemma_max_i128_keeps_larger(x: i128, y: i128, m: Max<i128>)
    ensures
        Max::Has(x).spec_merge(Max::Has(y)) matches Max::Has(z) && z >= x && z >= y && (z == x || z == y),
        Max::<i128>::NegInf.spec_merge(m) == m,
        m.spec_merge(Max::<i128>::NegInf) == m,
{
}

/// Merging two present values of `Min<i128>` keeps the smaller one, and `Inf` changes nothing.
pub proof fn lemma_min_i128_keeps_smaller(x: i128, y: i128, m: Min<i128>)
    ensures
        Min::Has(x).spec_merge(Min::Has(y)) matches Min::Has(z) && z <= x && z <= y && (z == x || z == y),
        Min::<i128>::Inf.spec_merge(m) == m,
        m.spec_merge(Min::<i128>::Inf) == m,
{
}

/// Merging two present values of `Max<u8>` keeps the larger one, and `NegInf` changes
/// nothing.
pub proof fn lemma_max_u8_keeps_larger(x: u8, y: u8, m: Max<u8>)
    ensures
        Max::Has(x).spec_merge(Max::Has(y)) matches Max::Has(z) && z >= x && z >= y && (z == x || z == y),
        Max::<u8>::NegInf.spec_merge(m) == m,
        m.spec_merge(Max::<u8>::NegInf) == m,
{
}

/// Merging two present values of `Min<u8>` keeps the smaller one, and `Inf` changes nothing.
pub proof fn lemma_min_u8_keeps_smaller(x: u8, y: u8, m: Min<u8>)
    ensures
        Min::Has(x).spec_merge(Min::Has(y)) matches Min::Has(z) && z <= x && z <= y && (z == x || z == y),
        Min::<u8>::Inf.spec_merge(m) == m,
        m.spec_merge(Min::<u8>::Inf) == m,
{
}

/// Merging two present values of `Max<u16>` keeps the larger one, and `NegInf` changes
/// nothing.
pub proof fn lemma_max_u16_keeps_larger(x: u16, y: u16, m: Max<u16>)
    ensures
        Max::Has(x).spec_merge(Max::Has(y)) matches Max::Has(z) && z >= x && z >= y && (z == x || z == y),
        Max::<u16>::NegInf.spec_merge(m) == m,
        m.spec_merge(Max::<u16>::NegInf) == m,
{
}

/// Merging two present values of `Min<u16>` keeps the smaller one, and `Inf` changes nothing.
pub proof fn lemma_min_u16_keeps_smaller(x: u16, y: u16, m: Min<u16>)
    ensures
        Min::Has(x).spec_merge(Min::Has(y)) matches Min::Has(z) && z <= x && z <= y && (z == x || z == y),
        Min::<u16>::Inf.spec_merge(m) == m,
        m.spec_merge(Min::<u16>::Inf) == m,
{
}

/// Merging two present values of `Max<u32>` keeps the larger one, and `NegInf` changes
/// nothing.
pub proof fn lemma_max_u32_keeps_larger(x: u32, y: u32, m: Max<u32>)
    ensures
        Max::Has(x).spec_merge(Max::Has(y)) matches Max::Has(z) && z >= x && z >= y && (z == x || z == y),
        Max::<u32>::NegInf.spec_merge(m) == m,
        m.spec_merge(Max::<u32>::NegInf) == m,
{
}

/// Merging two present values of `Min<u32>` keeps the smaller one, and `Inf` changes nothing.
pub proof fn lemma_min_u32_keeps_smaller(x: u32, y: u32, m: Min<u32>)
    ensures
        Min::Has(x).spec_merge(Min::Has(y)) matches Min::Has(z) && z <= x && z <= y && (z == x || z == y),
        Min::<u32>::Inf.spec_merge(m) == m,
        m.spec_merge(Min::<u32>::Inf) == m,
{
}

/// Merging two present values of `Max<u64>` keeps the larger one, and `NegInf` changes
/// nothing.
pub proof fn lemma_max_u64_keeps_larger(x: u64, y: u64, m: Max<u64>)
    ensures
        Max::Has(x).spec_merge(Max::Has(y)) matches Max::Has(z) && z >= x && z >= y && (z == x || z == y),
        Max::<u64>::NegInf.spec_merge(m) == m,
        m.spec_merge(Max::<u64>::NegInf) == m,
{
}

/// Merging two present values of `Min<u64>` keeps the smaller one, and `Inf` changes nothing.
pub proof fn lemma_min_u64_keeps_smaller(x: u64, y: u64, m: Min<u64>)
    ensures
        Min::Has(x).spec_merge(Min::Has(y)) matches Min::Has(z) && z <= x && z <= y && (z == x || z == y),
        Min::<u64>::Inf.spec_merge(m) == m,
        m.spec_merge(Min::<u64>::Inf) == m,
{
}

/// Merging two present values of `Max<u128>` keeps the larger one, and `NegInf` changes
/// nothing.
pub proof fn lemma_max_u128_keeps_larger(x: u128, y: u128, m: Max<u128>)
    ensures
        Max::Has(x).spec_merge(Max::Has(y)) matches Max::Has(z) && z >= x && z >= y && (z == x || z == y),
        Max::<u128>::NegInf.spec_merge(m) == m,
        m.spec_merge(Max::<u128>::NegInf) == m,
{
}

/// Merging two present values of `Min<u128>` keeps the smaller one, and `Inf` changes nothing.
pub proof fn lemma_min_u128_keeps_smaller(x: u128, y: u128, m: Min<u128>)
    ensures
        Min::Has(x).spec_merge(Min::Has(y)) matches Min::Has(z) && z <= x && z <= y && (z == x || z == y),
        Min::<u128>::Inf.spec_merge(m) == m,
        m.spec_merge(Min::<u128>::Inf) == m,
{
}

/// Merging two present values of `Max<usize>` keeps the larger one, and `NegInf` changes
/// nothing.
pub proof fn lemma_max_usize_keeps_larger(x: usize, y: usize, m: Max<usize>)
    ensures
        Max::Has(x).spec_merge(Max::Has(y)) matches Max::Has(z) && z >= x && z >= y && (z == x || z == y),
        Max::<usize>::NegInf.spec_merge(m) == m,
        m.spec_merge(Max::<usize>::NegInf) == m,
{
}

/// Merging two present values of `Min<usize>` keeps the smaller one, and `Inf` changes nothing.
pub proof fn lemma_min_usize_keeps_smaller(x: usize, y: usize, m: Min<usize>)
    ensures
        Min::Has(x).spec_merge(Min::Has(y)) matches Min::Has(z) && z <= x && z <= y && (z == x || z == y),
        Min::<usize>::Inf.spec_merge(m) == m,
        m.spec_merge(Min::<usize>::Inf) == m,
{
}

/// Merging two `Sum<i8>` adds: the result is the true sum when that fits, and differs
/// from it by a multiple of the type's modulus otherwise.
pub proof fn lemma_sum_i8_adds(x: i8, y: i8)
    ensures
        congruent(Sum(x).spec_merge(Sum(y)).0 as int, x + y, 0x100int),
        i8::MIN <= x + y <= i8::MAX ==> Sum(x).spec_merge(Sum(y)).0 == x + y,
{
    let r = Sum(x).spec_merge(Sum(y)).0;
    if x + y > i8::MAX {
        assert(r == x + y + (-1) * 0x100int);
        lemma_multiple_congruent(r as int, x + y, (-1), 0x100int);
    } else if x + y < i8::MIN {
        assert(r == x + y + 1 * 0x100int);
        lemma_multiple_congruent(r as int, x + y, 1, 0x100int);
    } else {
        assert(r == x + y + 0 * 0x100int);
        lemma_multiple_congruent(r as int, x + y, 0, 0x100int);
    }
}

/// Merging two `Sum<i16>` adds: the result is the true sum when that fits, and differs
/// from it by a multiple of the type's modulus otherwise.
pub proof fn lemma_sum_i16_adds(x: i16, y: i16)
    ensures
        congruent(Sum(x).spec_merge(Sum(y)).0 as int, x + y, 0x1_0000int),
        i16::MIN <= x + y <= i16::MAX ==> Sum(x).spec_merge(Sum(y)).0 == x + y,
{
    let r = Sum(x).spec_merge(Sum(y)).0;
    if x + y > i16::MAX {
        assert(r == x + y + (-1) * 0x1_0000int);
        lemma_multiple_congruent(r as int, x + y, (-1), 0x1_0000int);
    } else if x + y < i16::MIN {
        assert(r == x + y + 1 * 0x1_0000int);
        lemma_multiple_congruent(r as int, x + y, 1, 0x1_0000int);
    } else {
        assert(r == x + y + 0 * 0x1_0000int);
        lemma_multiple_congruent(r as int, x + y, 0, 0x1_0000int);
    }
}

/// Merging two `Sum<i32>` adds: the result is the true sum when that fits, and differs
/// from it by a multiple of the type's modulus otherwise.
pub proof fn lemma_sum_i32_adds(x: i32, y: i32)
    ensures
        congruent(Sum(x).spec_merge(Sum(y)).0 as int, x + y, 0x1_0000_0000int),
        i32::MIN <= x + y <= i32::MAX ==> Sum(x).spec_merge(Sum(y)).0 == x + y,
{
    let r = Sum(x).spec_merge(Sum(y)).0;
    if x + y > i32::MAX {
        assert(r == x + y + (-1) * 0x1_0000_0000int);
        lemma_multiple_congruent(r as int, x + y, (-1), 0x1_0000_0000int);
    } else if x + y < i32::MIN {
        assert(r == x + y + 1 * 0x1_0000_0000int);
        lemma_multiple_congruent(r as int, x + y, 1, 0x1_0000_0000int);
    } else {
        assert(r == x + y + 0 * 0x1_0000_0000int);
        lemma_multiple_congruent(r as int, x + y, 0, 0x1_0000_0000int);
    }
}

/// Merging two `Sum<i64>` adds: the result is the true sum when that fits, and differs
/// from it by a multiple of the type's modulus otherwise.
pub proof fn lemma_sum_i64_adds(x: i64, y: i64)
    ensures
        congruent(Sum(x).spec_merge(Sum(y)).0 as int, x + y, 0x1_0000_0000_0000_0000int),
        i64::MIN <= x + y <= i64::MAX ==> Sum(x).spec_merge(Sum(y)).0 == x + y,
{
    let r = Sum(x).spec_merge(Sum(y)).0;
    if x + y > i64::MAX {
        assert(r == x + y + (-1) * 0x1_0000_0000_0000_0000int);
        lemma_multiple_congruent(r as int, x + y, (-1), 0x1_0000_0000_0000_0000int);
    } else if x + y < i64::MIN {
        assert(r == x + y + 1 * 0x1_0000_0000_0000_0000int);
        lemma_multiple_congruent(r as int, x + y, 1, 0x1_0000_0000_0000_0000int);
    } else {
        assert(r == x + y + 0 * 0x1_0000_0000_0000_0000int);
        lemma_multiple_congruent(r as int, x + y, 0, 0x1_0000_0000_0000_0000int);
    }
}

/// Merging two `Sum<i128>` adds: the result is the true sum when that fits, and differs
/// from it by a multiple of the type's modulus otherwise.
pub proof fn lemma_sum_i128_adds(x: i128, y: i128)
    ensures
        congruent(Sum(x).spec_merge(Sum(y)).0 as int, x + y, 0x1_0000_0000_0000_0000_0000_0000_0000_0000int),
        i128::MIN <= x + y <= i128::MAX ==> Sum(x).spec_merge(Sum(y)).0 == x + y,
{
    let r = Sum(x).spec_merge(Sum(y)).0;
    if x + y > i128::MAX {
        assert(r == x + y + (-1) * 0x1_0000_0000_0000_0000_0000_0000_0000_0000int);
        lemma_multiple_congruent(r as int, x + y, (-1), 0x1_0000_0000_0000_0000_0000_0000_0000_0000int);
    } else if x + y < i128::MIN {
        assert(r == x + y + 1 * 0x1_0000_0000_0000_0000_0000_0000_0000_0000int);
        lemma_multiple_congruent(r as int, x + y, 1, 0x1_0000_0000_0000_0000_0000_0000_0000_0000int);
    } else {
        assert(r == x + y + 0 * 0x1_0000_0000_0000_0000_0000_0000_0000_0000int);
        lemma_multiple_congruent(r as int, x + y, 0, 0x1_0000_0000_0000_0000_0000_0000_0000_0000int);
    }
}

/// Merging two `Sum<u8>` adds: the result is the true sum when that fits, and differs
/// from it by a multiple of the type's modulus otherwise.
pub proof fn lemma_sum_u8_adds(x: u8, y: u8)
    ensures
        congruent(Sum(x).spec_merge(Sum(y)).0 as int, x + y, 0x100int),
        u8::MIN <= x + y <= u8::MAX ==> Sum(x).spec_merge(Sum(y)).0 == x + y,
{
    let r = Sum(x).spec_merge(Sum(y)).0;
    if x + y > u8::MAX {
        assert(r == x + y + (-1) * 0x100int);
        lemma_multiple_congruent(r as int, x + y, (-1), 0x100int);
    } else if x + y < u8::MIN {
        assert(r == x + y + 1 * 0x100int);
        lemma_multiple_congruent(r as int, x + y, 1, 0x100int);
    } else {
        assert(r == x + y + 0 * 0x100int);
        lemma_multiple_congruent(r as int, x + y, 0, 0x100int);
    }
}

/// Merging two `Sum<u16>` adds: the result is the true sum when that fits, and differs
/// from it by a multiple of the type's modulus otherwise.
pub proof fn lemma_sum_u16_adds(x: u16, y: u16)
    ensures
        congruent(Sum(x).spec_merge(Sum(y)).0 as int, x + y, 0x1_0000int),
        u16::MIN <= x + y <= u16::MAX ==> Sum(x).spec_merge(Sum(y)).0 == x + y,
{
    let r = Sum(x).spec_merge(Sum(y)).0;
    if x + y > u16::MAX {
        assert(r == x + y + (-1) * 0x1_0000int);
        lemma_multiple_congruent(r as int, x + y, (-1), 0x1_0000int);
    } else if x + y < u16::MIN {
        assert(r == x + y + 1 * 0x1_0000int);
        lemma_multiple_congruent(r as int, x + y, 1, 0x1_0000int);
    } else {
        assert(r == x + y + 0 * 0x1_0000int);
        lemma_multiple_congruent(r as int, x + y, 0, 0x1_0000int);
    }
}

/// Merging two `Sum<u32>` adds: the result is the true sum when that fits, and differs
/// from it by a multiple of the type's modulus otherwise.
pub proof fn lemma_sum_u32_adds(x: u32, y: u32)
    ensures
        congruent(Sum(x).spec_merge(Sum(y)).0 as int, x + y, 0x1_0000_0000int),
        u32::MIN <= x + y <= u32::MAX ==> Sum(x).spec_merge(Sum(y)).0 == x + y,
{
    let r = Sum(x).spec_merge(Sum(y)).0;
    if x + y > u32::MAX {
        assert(r == x + y + (-1) * 0x1_0000_0000int);
        lemma_multiple_congruent(r as int, x + y, (-1), 0x1_0000_0000int);
    } else if x + y < u32::MIN {
        assert(r == x + y + 1 * 0x1_0000_0000int);
        lemma_multiple_congruent(r as int, x + y, 1, 0x1_0000_0000int);
    } else {
        assert(r == x + y + 0 * 0x1_0000_0000int);
        lemma_multiple_congruent(r as int, x + y, 0, 0x1_0000_0000int);
    }
}

/// Merging two `Sum<u64>` adds: the result is the true sum when that fits, and differs
/// from it by a multiple of the type's modulus otherwise.
pub proof fn lemma_sum_u64_adds(x: u64, y: u64)
    ensures
        congruent(Sum(x).spec_merge(Sum(y)).0 as int, x + y, 0x1_0000_0000_0000_0000int),
        u64::MIN <= x + y <= u64::MAX ==> Sum(x).spec_merge(Sum(y)).0 == x + y,
{
    let r = Sum(x).spec_merge(Sum(y)).0;
    if x + y > u64::MAX {
        assert(r == x + y + (-1) * 0x1_0000_0000_0000_0000int);
        lemma_multiple_congruent(r as int, x + y, (-1), 0x1_0000_0000_0000_0000int);
    } else if x + y < u64::MIN {
        assert(r == x + y + 1 * 0x1_0000_0000_0000_0000int);
        lemma_multiple_congruent(r as int, x + y, 1, 0x1_0000_0000_0000_0000int);
    } else {
        assert(r == x + y + 0 * 0x1_0000_0000_0000_0000int);
        lemma_multiple_congruent(r as int, x + y, 0, 0x1_0000_0000_0000_0000int);
    }
}

/// Merging two `Sum<u128>` adds: the result is the true sum when that fits, and differs
/// from it by a multiple of the type's modulus otherwise.
pub proof fn lemma_sum_u128_adds(x: u128, y: u128)
    ensures
        congruent(Sum(x).spec_merge(Sum(y)).0 as int, x + y, 0x1_0000_0000_0000_0000_0000_0000_0000_0000int),
        u128::MIN <= x + y <= u128::MAX ==> Sum(x).spec_merge(Sum(y)).0 == x + y,
{
    let r = Sum(x).spec_merge(Sum(y)).0;
    if x + y > u128::MAX {
        assert(r == x + y + (-1) * 0x1_0000_0000_0000_0000_0000_0000_0000_0000int);
        lemma_multiple_congruent(r as int, x + y, (-1), 0x1_0000_0000_0000_0000_0000_0000_0000_0000int);
    } else if x + y < u128::MIN {
        assert(r == x + y + 1 * 0x1_0000_0000_0000_0000_0000_0000_0000_0000int);
        lemma_multiple_congruent(r as int, x + y, 1, 0x1_0000_0000_0000_0000_0000_0000_0000_0000int);
    } else {
        assert(r == x + y + 0 * 0x1_0000_0000_0000_0000_0000_0000_0000_0000int);
        lemma_multiple_congruent(r as int, x + y, 0, 0x1_0000_0000_0000_0000_0000_0000_0000_0000int);
    }
}

/// Merging two `Sum<usize>` adds: the result is the true sum when that fits, and differs
/// from it by a multiple of the type's modulus otherwise.
pub proof fn lemma_sum_usize_adds(x: usize, y: usize)
    ensures
        congruent(Sum(x).spec_merge(Sum(y)).0 as int, x + y, usize::MAX as int + 1),
        usize::MIN <= x + y <= usize::MAX ==> Sum(x).spec_merge(Sum(y)).0 == x + y,
{
    let r = Sum(x).spec_merge(Sum(y)).0;
    if x + y > usize::MAX {
        assert(r == x + y + (-1) * (usize::MAX as int + 1));
        lemma_multiple_congruent(r as int, x + y, (-1), (usize::MAX as int + 1));
    } else if x + y < usize::MIN {
        assert(r == x + y + 1 * (usize::MAX as int + 1));
        lemma_multiple_congruent(r as int, x + y, 1, (usize::MAX as int + 1));
    } else {
        assert(r == x + y + 0 * (usize::MAX as int + 1));
        lemma_multiple_congruent(r as int, x + y, 0, (usize::MAX as int + 1));
    }
}

/// Merging two `Product<u8>` multiplies: the result is the true product when that fits,
/// and differs from it by a multiple of the type's modulus otherwise.
pub proof fn lemma_product_u8_multiplies(x: u8, y: u8)
    ensures
        congruent(Product(x).spec_merge(Product(y)).0 as int, x * y, 0x100int),
        x * y <= u8::MAX ==> Product(x).spec_merge(Product(y)).0 == x * y,
{
    let m = 0x100int;
    let p = x as int * y as int;
    vstd::arithmetic::div_mod::lemma_fundamental_div_mod(p, m);
    vstd::arithmetic::div_mod::lemma_mod_bound(p, m);
    vstd::arithmetic::mul::lemma_mul_nonnegative(x as int, y as int);
    assert(p == m * (p / m) + p % m);
    assert(Product(x).spec_merge(Product(y)).0 == p % m);
    assert(p % m == p + (-(p / m)) * m) by (nonlinear_arith)
        requires
            p == m * (p / m) + p % m,
    ;
    lemma_multiple_congruent(p % m, p, -(p / m), m);
    if p <= u8::MAX {
        vstd::arithmetic::div_mod::lemma_small_mod(p as nat, m as nat);
    }
}

/// Merging two `Product<u16>` multiplies: the result is the true product when that fits,
/// and differs from it by a multiple of the type's modulus otherwise.
pub proof fn lemma_product_u16_multiplies(x: u16, y: u16)
    ensures
        congruent(Product(x).spec_merge(Product(y)).0 as int, x * y, 0x1_0000int),
        x * y <= u16::MAX ==> Product(x).spec_merge(Product(y)).0 == x * y,
{
    let m = 0x1_0000int;
    let p = x as int * y as int;
    vstd::arithmetic::div_mod::lemma_fundamental_div_mod(p, m);
    vstd::arithmetic::div_mod::lemma_mod_bound(p, m);
    vstd::arithmetic::mul::lemma_mul_nonnegative(x as int, y as int);
    assert(p == m * (p / m) + p % m);
    assert(Product(x).spec_merge(Product(y)).0 == p % m);
    assert(p % m == p + (-(p / m)) * m) by (nonlinear_arith)
        requires
            p == m * (p / m) + p % m,
    ;
    lemma_multiple_congruent(p % m, p, -(p / m), m);
    if p <= u16::MAX {
        vstd::arithmetic::div_mod::lemma_small_mod(p as nat, m as nat);
    }
}

/// Merging two `Product<u32>` multiplies: the result is the true product when that fits,
/// and differs from it by a multiple of the type's modulus otherwise.
pub proof fn lemma_product_u32_multiplies(x: u32, y: u32)
    ensures
        congruent(Product(x).spec_merge(Product(y)).0 as int, x * y, 0x1_0000_0000int),
        x * y <= u32::MAX ==> Product(x).spec_merge(Product(y)).0 == x * y,
{
    let m = 0x1_0000_0000int;
    let p = x as int * y as int;
    vstd::arithmetic::div_mod::lemma_fundamental_div_mod(p, m);
    vstd::arithmetic::div_mod::lemma_mod_bound(p, m);
    vstd::arithmetic::mul::lemma_mul_nonnegative(x as int, y as int);
    assert(p == m * (p / m) + p % m);
    assert(Product(x).spec_merge(Product(y)).0 == p % m);
    assert(p % m == p + (-(p / m)) * m) by (nonlinear_arith)
        requires
            p == m * (p / m) + p % m,
    ;
    lemma_multiple_congruent(p % m, p, -(p / m), m);
    if p <= u32::MAX {
        vstd::arithmetic::div_mod::lemma_small_mod(p as nat, m as nat);
    }
}

/// Merging two `Product<u64>` multiplies: the result is the true product when that fits,
/// and differs from it by a multiple of the type's modulus otherwise.
pub proof fn lemma_product_u64_multiplies(x: u64, y: u64)
    ensures
        congruent(Product(x).spec_merge(Product(y)).0 as int, x * y, 0x1_0000_0000_0000_0000int),
        x * y <= u64::MAX ==> Product(x).spec_merge(Product(y)).0 == x * y,
{
    let m = 0x1_0000_0000_0000_0000int;
    let p = x as int * y as int;
    vstd::arithmetic::div_mod::lemma_fundamental_div_mod(p, m);
    vstd::arithmetic::div_mod::lemma_mod_bound(p, m);
    vstd::arithmetic::mul::lemma_mul_nonnegative(x as int, y as int);
    assert(p == m * (p / m) + p % m);
    assert(Product(x).spec_merge(Product(y)).0 == p % m);
    assert(p % m == p + (-(p / m)) * m) by (nonlinear_arith)
        requires
            p == m * (p / m) + p % m,
    ;
    lemma_multiple_congruent(p % m, p, -(p / m), m);
    if p <= u64::MAX {
        vstd::arithmetic::div_mod::lemma_small_mod(p as nat, m as nat);
    }
}

/// Merging two `Product<u128>` multiplies: the result is the true product when that fits,
/// and differs from it by a multiple of the type's modulus otherwise.
pub proof fn lemma_product_u128_multiplies(x: u128, y: u128)
    ensures
        congruent(Product(x).spec_merge(Product(y)).0 as int, x * y, 0x1_0000_0000_0000_0000_0000_0000_0000_0000int),
        x * y <= u128::MAX ==> Product(x).spec_merge(Product(y)).0 == x * y,
{
    let m = 0x1_0000_0000_0000_0000_0000_0000_0000_0000int;
    let p = x as int * y as int;
    vstd::arithmetic::div_mod::lemma_fundamental_div_mod(p, m);
    vstd::arithmetic::div_mod::lemma_mod_bound(p, m);
    vstd::arithmetic::mul::lemma_mul_nonnegative(x as int, y as int);
    assert(p == m * (p / m) + p % m);
    assert(Product(x).spec_merge(Product(y)).0 == p % m);
    assert(p % m == p + (-(p / m)) * m) by (nonlinear_arith)
        requires
            p == m * (p / m) + p % m,
    ;
    lemma_multiple_congruent(p % m, p, -(p / m), m);
    if p <= u128::MAX {
        vstd::arithmetic::div_mod::lemma_small_mod(p as nat, m as nat);
    }
}

/// Merging two `Product<usize>` multiplies: the result is the true product when that fits,
/// and differs from it by a multiple of the type's modulus otherwise.
pub proof fn lemma_product_usize_multiplies(x: usize, y: usize)
    ensures
        congruent(Product(x).spec_merge(Product(y)).0 as int, x * y, (usize::MAX as int + 1)),
        x * y <= usize::MAX ==> Product(x).spec_merge(Product(y)).0 == x * y,
{
    let m = (usize::MAX as int + 1);
    let p = x as int * y as int;
    vstd::arithmetic::div_mod::lemma_fundamental_div_mod(p, m);
    vstd::arithmetic::div_mod::lemma_mod_bound(p, m);
    vstd::arithmetic::mul::lemma_mul_nonnegative(x as int, y as int);
    assert(p == m * (p / m) + p % m);
    assert(Product(x).spec_merge(Product(y)).0 == p % m);
    assert(p % m == p + (-(p / m)) * m) by (nonlinear_arith)
        requires
            p == m * (p / m) + p % m,
    ;
    lemma_multiple_congruent(p % m, p, -(p / m), m);
    if p <= usize::MAX {
        vstd::arithmetic::div_mod::lemma_small_mod(p as nat, m as nat);
    }
}

/// Merging two sizes adds the counts: the result is the true count when that fits, and
/// differs from it by a multiple of `usize::MAX + 1` otherwise.
pub proof fn lemma_size_adds(x: usize, y: usize)
    ensures
        congruent(Size(x).spec_merge(Size(y)).0 as int, x + y, usize::MAX as int + 1),
        x + y <= usize::MAX ==> Size(x).spec_merge(Size(y)).0 == x + y,
{
    let r = Size(x).spec_merge(Size(y)).0;
    if x + y > usize::MAX {
        assert(r == x + y + (-1) * (usize::MAX as int + 1));
        lemma_multiple_congruent(r as int, x + y, (-1), (usize::MAX as int + 1));
    } else {
        assert(r == x + y + 0 * (usize::MAX as int + 1));
        lemma_multiple_congruent(r as int, x + y, 0, (usize::MAX as int + 1));
    }
}

} // verus!
