use vstd::prelude::*;

verus! {

/// A set with an associative binary operation.
///
/// `a.merge(b.merge(c)) == a.merge(b).merge(c)` is stated by `lemma_merge_assoc`; every
/// implementation proves it (or, for implementations outside this crate, promises it).
pub trait Semigroup: Sized {
    /// The mathematical meaning of `merge`.
    spec fn spec_merge(self, other: Self) -> Self;

    /// Associativity of `merge`.
    proof fn lemma_merge_assoc(a: Self, b: Self, c: Self)
        ensures
            a.spec_merge(b.spec_merge(c)) == a.spec_merge(b).spec_merge(c),
    ;

    fn merge(self, other: Self) -> (r: Self)
        ensures
            r == self.spec_merge(other),
    ;

    /// A copy of the value that is equal to it.
    fn duplicate(&self) -> (r: Self)
        ensures
            r == *self,
    ;

    /// Merge on the right: `self = old_self.merge(other)`.
    fn merge_assign(&mut self, other: &Self)
        where Self: Clone,
        ensures
            *final(self) == old(self).spec_merge(*other),
    {
        let left = self.duplicate();
        *self = left.merge(other.duplicate());
    }

    /// Merge on the left: `self = other.merge(old_self)`.
    ///
    /// For a non-commutative semigroup the side matters, as when lazy tags of a segment tree
    /// are composed: the newer tag stands on the left.
    fn prepend_assign(&mut self, other: &Self)
        where Self: Clone,
        ensures
            *final(self) == other.spec_merge(*old(self)),
    {
        let right = self.duplicate();
        *self = other.duplicate().merge(right);
    }
}

/// The merge of all values of a non-empty sequence, from left to right.
pub open spec fn fold1<V: Semigroup>(s: Seq<V>) -> V
    recommends
        s.len() > 0,
    decreases s.len(),
{
    if s.len() <= 1 {
        s[0]
    } else {
        fold1(s.drop_last()).spec_merge(s.last())
    }
}

impl<A: Semigroup, B: Semigroup> Semigroup for (A, B) {
    open spec fn spec_merge(self, other: Self) -> Self {
        (self.0.spec_merge(other.0), self.1.spec_merge(other.1))
    }

    proof fn lemma_merge_assoc(a: Self, b: Self, c: Self) {
        A::lemma_merge_assoc(a.0, b.0, c.0);
        B::lemma_merge_assoc(a.1, b.1, c.1);
    }

    fn merge(self, other: Self) -> (r: Self) {
        let (a, b) = self;
        let (oa, ob) = other;
        (a.merge(oa), b.merge(ob))
    }

    fn duplicate(&self) -> (r: Self) {
        (self.0.duplicate(), self.1.duplicate())
    }
}

/// A semigroup whose merge keeps the left value and drops the right one.
#[derive(Debug, PartialEq, Eq, Clone, Copy)]
pub struct Identity<V>(pub V);

impl<V: Copy> Semigroup for Identity<V> {
    open spec fn spec_merge(self, other: Self) -> Self {
        self
    }

    proof fn lemma_merge_assoc(a: Self, b: Self, c: Self) {
    }

    fn merge(self, other: Self) -> (r: Self) {
        self
    }

    fn duplicate(&self) -> (r: Self) {
        Identity(self.0)
    }

    fn merge_assign(&mut self, other: &Self)
        where Self: Clone,
    {
    }

    fn prepend_assign(&mut self, other: &Self)
        where Self: Clone,
    {
        *self = Identity(other.0);
    }
}

/// Addition, wrapping at the bounds of the integer type.
#[derive(Debug, PartialEq, Eq, Clone, Copy)]
pub struct Sum<T>(pub T);

/// Multiplication, wrapping at the bounds of the integer type.
#[derive(Debug, PartialEq, Eq, Clone, Copy)]
pub struct Product<T>(pub T);

/// The larger of two values; `NegInf` stands below every value.
#[derive(Debug, PartialEq, Eq, Clone, Copy)]
pub enum Max<O> {
    NegInf,
    Has(O),
}

/// The smaller of two values; `Inf` stands above every value.
#[derive(Debug, PartialEq, Eq, Clone, Copy)]
pub enum Min<O> {
    Has(O),
    Inf,
}

/// The larger of two `Max` values.
pub open spec fn spec_max<O>(a: Max<O>, b: Max<O>, ge: spec_fn(O, O) -> bool) -> Max<O> {
    match (a, b) {
        (Max::NegInf, y) => y,
        (x, Max::NegInf) => x,
        (Max::Has(x), Max::Has(y)) => if ge(x, y) { Max::Has(x) } else { Max::Has(y) },
    }
}

/// The smaller of two `Min` values.
pub open spec fn spec_min<O>(a: Min<O>, b: Min<O>, le: spec_fn(O, O) -> bool) -> Min<O> {
    match (a, b) {
        (Min::Inf, y) => y,
        (x, Min::Inf) => x,
        (Min::Has(x), Min::Has(y)) => if le(x, y) { Min::Has(x) } else { Min::Has(y) },
    }
}

impl Semigroup for Sum<i32> {
    open spec fn spec_merge(self, other: Self) -> Self {
        Sum(vstd::wrapping::i32_specs::wrapping_add(self.0, other.0))
    }

    proof fn lemma_merge_assoc(a: Self, b: Self, c: Self) {
    }

    fn merge(self, other: Self) -> (r: Self) {
        Sum(self.0.wrapping_add(other.0))
    }

    fn duplicate(&self) -> (r: Self) {
        Sum(self.0)
    }
}

impl Semigroup for Sum<i64> {
    open spec fn spec_merge(self, other: Self) -> Self {
        Sum(vstd::wrapping::i64_specs::wrapping_add(self.0, other.0))
    }

    proof fn lemma_merge_assoc(a: Self, b: Self, c: Self) {
    }

    fn merge(self, other: Self) -> (r: Self) {
        Sum(self.0.wrapping_add(other.0))
    }

    fn duplicate(&self) -> (r: Self) {
        Sum(self.0)
    }
}

impl Semigroup for Sum<u32> {
    open spec fn spec_merge(self, other: Self) -> Self {
        Sum(vstd::wrapping::u32_specs::wrapping_add(self.0, other.0))
    }

    proof fn lemma_merge_assoc(a: Self, b: Self, c: Self) {
    }

    fn merge(self, other: Self) -> (r: Self) {
        Sum(self.0.wrapping_add(other.0))
    }

    fn duplicate(&self) -> (r: Self) {
        Sum(self.0)
    }
}

impl Semigroup for Sum<u64> {
    open spec fn spec_merge(self, other: Self) -> Self {
        Sum(vstd::wrapping::u64_specs::wrapping_add(self.0, other.0))
    }

    proof fn lemma_merge_assoc(a: Self, b: Self, c: Self) {
    }

    fn merge(self, other: Self) -> (r: Self) {
        Sum(self.0.wrapping_add(other.0))
    }

    fn duplicate(&self) -> (r: Self) {
        Sum(self.0)
    }
}

impl Semigroup for Sum<usize> {
    open spec fn spec_merge(self, other: Self) -> Self {
        Sum(vstd::wrapping::usize_specs::wrapping_add(self.0, other.0))
    }

    proof fn lemma_merge_assoc(a: Self, b: Self, c: Self) {
    }

    fn merge(self, other: Self) -> (r: Self) {
        Sum(self.0.wrapping_add(other.0))
    }

    fn duplicate(&self) -> (r: Self) {
        Sum(self.0)
    }
}

impl Semigroup for Product<u32> {
    open spec fn spec_merge(self, other: Self) -> Self {
        Product(vstd::wrapping::u32_specs::wrapping_mul(self.0, other.0))
    }

    proof fn lemma_merge_assoc(a: Self, b: Self, c: Self) {
        let m: int = 0x1_0000_0000;
        let (x, y, z) = (a.0 as int, b.0 as int, c.0 as int);
        assert(((x * y) % m * z) % m == (x * y * z) % m) by {
            vstd::arithmetic::div_mod::lemma_mul_mod_noop_left(x * y, z, m);
        }
        assert((x * ((y * z) % m)) % m == (x * (y * z)) % m) by {
            vstd::arithmetic::div_mod::lemma_mul_mod_noop_right(x, y * z, m);
        }
        assert(x * (y * z) == x * y * z) by {
            vstd::arithmetic::mul::lemma_mul_is_associative(x, y, z);
        }
        assert(0 <= (x * y) % m < m) by {
            vstd::arithmetic::div_mod::lemma_mod_bound(x * y, m);
            vstd::arithmetic::mul::lemma_mul_nonnegative(x, y);
        }
        assert(0 <= (y * z) % m < m) by {
            vstd::arithmetic::div_mod::lemma_mod_bound(y * z, m);
            vstd::arithmetic::mul::lemma_mul_nonnegative(y, z);
        }
    }

    fn merge(self, other: Self) -> (r: Self) {
        Product(self.0.wrapping_mul(other.0))
    }

    fn duplicate(&self) -> (r: Self) {
        Product(self.0)
    }
}

impl Semigroup for Product<u64> {
    open spec fn spec_merge(self, other: Self) -> Self {
        Product(vstd::wrapping::u64_specs::wrapping_mul(self.0, other.0))
    }

    proof fn lemma_merge_assoc(a: Self, b: Self, c: Self) {
        let m: int = 0x1_0000_0000_0000_0000;
        let (x, y, z) = (a.0 as int, b.0 as int, c.0 as int);
        assert(((x * y) % m * z) % m == (x * y * z) % m) by {
            vstd::arithmetic::div_mod::lemma_mul_mod_noop_left(x * y, z, m);
        }
        assert((x * ((y * z) % m)) % m == (x * (y * z)) % m) by {
            vstd::arithmetic::div_mod::lemma_mul_mod_noop_right(x, y * z, m);
        }
        assert(x * (y * z) == x * y * z) by {
            vstd::arithmetic::mul::lemma_mul_is_associative(x, y, z);
        }
        assert(0 <= (x * y) % m < m) by {
            vstd::arithmetic::div_mod::lemma_mod_bound(x * y, m);
            vstd::arithmetic::mul::lemma_mul_nonnegative(x, y);
        }
        assert(0 <= (y * z) % m < m) by {
            vstd::arithmetic::div_mod::lemma_mod_bound(y * z, m);
            vstd::arithmetic::mul::lemma_mul_nonnegative(y, z);
        }
    }

    fn merge(self, other: Self) -> (r: Self) {
        Product(self.0.wrapping_mul(other.0))
    }

    fn duplicate(&self) -> (r: Self) {
        Product(self.0)
    }
}

impl Semigroup for Product<usize> {
    open spec fn spec_merge(self, other: Self) -> Self {
        Product(vstd::wrapping::usize_specs::wrapping_mul(self.0, other.0))
    }

    proof fn lemma_merge_assoc(a: Self, b: Self, c: Self) {
        let m: int = (usize::MAX - usize::MIN + 1);
        let (x, y, z) = (a.0 as int, b.0 as int, c.0 as int);
        assert(((x * y) % m * z) % m == (x * y * z) % m) by {
            vstd::arithmetic::div_mod::lemma_mul_mod_noop_left(x * y, z, m);
        }
        assert((x * ((y * z) % m)) % m == (x * (y * z)) % m) by {
            vstd::arithmetic::div_mod::lemma_mul_mod_noop_right(x, y * z, m);
        }
        assert(x * (y * z) == x * y * z) by {
            vstd::arithmetic::mul::lemma_mul_is_associative(x, y, z);
        }
        assert(0 <= (x * y) % m < m) by {
            vstd::arithmetic::div_mod::lemma_mod_bound(x * y, m);
            vstd::arithmetic::mul::lemma_mul_nonnegative(x, y);
        }
        assert(0 <= (y * z) % m < m) by {
            vstd::arithmetic::div_mod::lemma_mod_bound(y * z, m);
            vstd::arithmetic::mul::lemma_mul_nonnegative(y, z);
        }
    }

    fn merge(self, other: Self) -> (r: Self) {
        Product(self.0.wrapping_mul(other.0))
    }

    fn duplicate(&self) -> (r: Self) {
        Product(self.0)
    }
}

impl Semigroup for Max<i32> {
    open spec fn spec_merge(self, other: Self) -> Self {
        spec_max(self, other, |x: i32, y: i32| x >= y)
    }

    proof fn lemma_merge_assoc(a: Self, b: Self, c: Self) {
    }

    fn merge(self, other: Self) -> (r: Self) {
        match (self, other) {
            (Max::NegInf, y) => y,
            (x, Max::NegInf) => x,
            (Max::Has(x), Max::Has(y)) => if x >= y { Max::Has(x) } else { Max::Has(y) },
        }
    }

    fn duplicate(&self) -> (r: Self) {
        *self
    }
}

impl Semigroup for Min<i32> {
    open spec fn spec_merge(self, other: Self) -> Self {
        spec_min(self, other, |x: i32, y: i32| x <= y)
    }

    proof fn lemma_merge_assoc(a: Self, b: Self, c: Self) {
    }

    fn merge(self, other: Self) -> (r: Self) {
        match (self, other) {
            (Min::Inf, y) => y,
            (x, Min::Inf) => x,
            (Min::Has(x), Min::Has(y)) => if x <= y { Min::Has(x) } else { Min::Has(y) },
        }
    }

    fn duplicate(&self) -> (r: Self) {
        *self
    }
}

impl Semigroup for Max<i64> {
    open spec fn spec_merge(self, other: Self) -> Self {
        spec_max(self, other, |x: i64, y: i64| x >= y)
    }

    proof fn lemma_merge_assoc(a: Self, b: Self, c: Self) {
    }

    fn merge(self, other: Self) -> (r: Self) {
        match (self, other) {
            (Max::NegInf, y) => y,
            (x, Max::NegInf) => x,
            (Max::Has(x), Max::Has(y)) => if x >= y { Max::Has(x) } else { Max::Has(y) },
        }
    }

    fn duplicate(&self) -> (r: Self) {
        *self
    }
}

impl Semigroup for Min<i64> {
    open spec fn spec_merge(self, other: Self) -> Self {
        spec_min(self, other, |x: i64, y: i64| x <= y)
    }

    proof fn lemma_merge_assoc(a: Self, b: Self, c: Self) {
    }

    fn merge(self, other: Self) -> (r: Self) {
        match (self, other) {
            (Min::Inf, y) => y,
            (x, Min::Inf) => x,
            (Min::Has(x), Min::Has(y)) => if x <= y { Min::Has(x) } else { Min::Has(y) },
        }
    }

    fn duplicate(&self) -> (r: Self) {
        *self
    }
}

impl Semigroup for Max<u32> {
    open spec fn spec_merge(self, other: Self) -> Self {
        spec_max(self, other, |x: u32, y: u32| x >= y)
    }

    proof fn lemma_merge_assoc(a: Self, b: Self, c: Self) {
    }

    fn merge(self, other: Self) -> (r: Self) {
        match (self, other) {
            (Max::NegInf, y) => y,
            (x, Max::NegInf) => x,
            (Max::Has(x), Max::Has(y)) => if x >= y { Max::Has(x) } else { Max::Has(y) },
        }
    }

    fn duplicate(&self) -> (r: Self) {
        *self
    }
}

impl Semigroup for Min<u32> {
    open spec fn spec_merge(self, other: Self) -> Self {
        spec_min(self, other, |x: u32, y: u32| x <= y)
    }

    proof fn lemma_merge_assoc(a: Self, b: Self, c: Self) {
    }

    fn merge(self, other: Self) -> (r: Self) {
        match (self, other) {
            (Min::Inf, y) => y,
            (x, Min::Inf) => x,
            (Min::Has(x), Min::Has(y)) => if x <= y { Min::Has(x) } else { Min::Has(y) },
        }
    }

    fn duplicate(&self) -> (r: Self) {
        *self
    }
}

impl Semigroup for Max<u64> {
    open spec fn spec_merge(self, other: Self) -> Self {
        spec_max(self, other, |x: u64, y: u64| x >= y)
    }

    proof fn lemma_merge_assoc(a: Self, b: Self, c: Self) {
    }

    fn merge(self, other: Self) -> (r: Self) {
        match (self, other) {
            (Max::NegInf, y) => y,
            (x, Max::NegInf) => x,
            (Max::Has(x), Max::Has(y)) => if x >= y { Max::Has(x) } else { Max::Has(y) },
        }
    }

    fn duplicate(&self) -> (r: Self) {
        *self
    }
}

impl Semigroup for Min<u64> {
    open spec fn spec_merge(self, other: Self) -> Self {
        spec_min(self, other, |x: u64, y: u64| x <= y)
    }

    proof fn lemma_merge_assoc(a: Self, b: Self, c: Self) {
    }

    fn merge(self, other: Self) -> (r: Self) {
        match (self, other) {
            (Min::Inf, y) => y,
            (x, Min::Inf) => x,
            (Min::Has(x), Min::Has(y)) => if x <= y { Min::Has(x) } else { Min::Has(y) },
        }
    }

    fn duplicate(&self) -> (r: Self) {
        *self
    }
}

impl Semigroup for Max<usize> {
    open spec fn spec_merge(self, other: Self) -> Self {
        spec_max(self, other, |x: usize, y: usize| x >= y)
    }

    proof fn lemma_merge_assoc(a: Self, b: Self, c: Self) {
    }

    fn merge(self, other: Self) -> (r: Self) {
        match (self, other) {
            (Max::NegInf, y) => y,
            (x, Max::NegInf) => x,
            (Max::Has(x), Max::Has(y)) => if x >= y { Max::Has(x) } else { Max::Has(y) },
        }
    }

    fn duplicate(&self) -> (r: Self) {
        *self
    }
}

impl Semigroup for Min<usize> {
    open spec fn spec_merge(self, other: Self) -> Self {
        spec_min(self, other, |x: usize, y: usize| x <= y)
    }

    proof fn lemma_merge_assoc(a: Self, b: Self, c: Self) {
    }

    fn merge(self, other: Self) -> (r: Self) {
        match (self, other) {
            (Min::Inf, y) => y,
            (x, Min::Inf) => x,
            (Min::Has(x), Min::Has(y)) => if x <= y { Min::Has(x) } else { Min::Has(y) },
        }
    }

    fn duplicate(&self) -> (r: Self) {
        *self
    }
}

impl Semigroup for Sum<i8> {
    open spec fn spec_merge(self, other: Self) -> Self {
        Sum(vstd::wrapping::i8_specs::wrapping_add(self.0, other.0))
    }

    proof fn lemma_merge_assoc(a: Self, b: Self, c: Self) {
    }

    fn merge(self, other: Self) -> (r: Self) {
        Sum(self.0.wrapping_add(other.0))
    }

    fn duplicate(&self) -> (r: Self) {
        Sum(self.0)
    }
}

impl Semigroup for Sum<i16> {
    open spec fn spec_merge(self, other: Self) -> Self {
        Sum(vstd::wrapping::i16_specs::wrapping_add(self.0, other.0))
    }

    proof fn lemma_merge_assoc(a: Self, b: Self, c: Self) {
    }

    fn merge(self, other: Self) -> (r: Self) {
        Sum(self.0.wrapping_add(other.0))
    }

    fn duplicate(&self) -> (r: Self) {
        Sum(self.0)
    }
}

impl Semigroup for Sum<i128> {
    open spec fn spec_merge(self, other: Self) -> Self {
        Sum(vstd::wrapping::i128_specs::wrapping_add(self.0, other.0))
    }

    proof fn lemma_merge_assoc(a: Self, b: Self, c: Self) {
    }

    fn merge(self, other: Self) -> (r: Self) {
        Sum(self.0.wrapping_add(other.0))
    }

    fn duplicate(&self) -> (r: Self) {
        Sum(self.0)
    }
}

impl Semigroup for Sum<u8> {
    open spec fn spec_merge(self, other: Self) -> Self {
        Sum(vstd::wrapping::u8_specs::wrapping_add(self.0, other.0))
    }

    proof fn lemma_merge_assoc(a: Self, b: Self, c: Self) {
    }

    fn merge(self, other: Self) -> (r: Self) {
        Sum(self.0.wrapping_add(other.0))
    }

    fn duplicate(&self) -> (r: Self) {
        Sum(self.0)
    }
}

impl Semigroup for Sum<u16> {
    open spec fn spec_merge(self, other: Self) -> Self {
        Sum(vstd::wrapping::u16_specs::wrapping_add(self.0, other.0))
    }

    proof fn lemma_merge_assoc(a: Self, b: Self, c: Self) {
    }

    fn merge(self, other: Self) -> (r: Self) {
        Sum(self.0.wrapping_add(other.0))
    }

    fn duplicate(&self) -> (r: Self) {
        Sum(self.0)
    }
}

impl Semigroup for Sum<u128> {
    open spec fn spec_merge(self, other: Self) -> Self {
        Sum(vstd::wrapping::u128_specs::wrapping_add(self.0, other.0))
    }

    proof fn lemma_merge_assoc(a: Self, b: Self, c: Self) {
    }

    fn merge(self, other: Self) -> (r: Self) {
        Sum(self.0.wrapping_add(other.0))
    }

    fn duplicate(&self) -> (r: Self) {
        Sum(self.0)
    }
}

impl Semigroup for Max<i8> {
    open spec fn spec_merge(self, other: Self) -> Self {
        spec_max(self, other, |x: i8, y: i8| x >= y)
    }

    proof fn lemma_merge_assoc(a: Self, b: Self, c: Self) {
    }

    fn merge(self, other: Self) -> (r: Self) {
        match (self, other) {
            (Max::NegInf, y) => y,
            (x, Max::NegInf) => x,
            (Max::Has(x), Max::Has(y)) => if x >= y { Max::Has(x) } else { Max::Has(y) },
        }
    }

    fn duplicate(&self) -> (r: Self) {
        *self
    }
}

impl Semigroup for Max<i16> {
    open spec fn spec_merge(self, other: Self) -> Self {
        spec_max(self, other, |x: i16, y: i16| x >= y)
    }

    proof fn lemma_merge_assoc(a: Self, b: Self, c: Self) {
    }

    fn merge(self, other: Self) -> (r: Self) {
        match (self, other) {
            (Max::NegInf, y) => y,
            (x, Max::NegInf) => x,
            (Max::Has(x), Max::Has(y)) => if x >= y { Max::Has(x) } else { Max::Has(y) },
        }
    }

    fn duplicate(&self) -> (r: Self) {
        *self
    }
}

impl Semigroup for Max<i128> {
    open spec fn spec_merge(self, other: Self) -> Self {
        spec_max(self, other, |x: i128, y: i128| x >= y)
    }

    proof fn lemma_merge_assoc(a: Self, b: Self, c: Self) {
    }

    fn merge(self, other: Self) -> (r: Self) {
        match (self, other) {
            (Max::NegInf, y) => y,
            (x, Max::NegInf) => x,
            (Max::Has(x), Max::Has(y)) => if x >= y { Max::Has(x) } else { Max::Has(y) },
        }
    }

    fn duplicate(&self) -> (r: Self) {
        *self
    }
}

impl Semigroup for Max<u8> {
    open spec fn spec_merge(self, other: Self) -> Self {
        spec_max(self, other, |x: u8, y: u8| x >= y)
    }

    proof fn lemma_merge_assoc(a: Self, b: Self, c: Self) {
    }

    fn merge(self, other: Self) -> (r: Self) {
        match (self, other) {
            (Max::NegInf, y) => y,
            (x, Max::NegInf) => x,
            (Max::Has(x), Max::Has(y)) => if x >= y { Max::Has(x) } else { Max::Has(y) },
        }
    }

    fn duplicate(&self) -> (r: Self) {
        *self
    }
}

impl Semigroup for Max<u16> {
    open spec fn spec_merge(self, other: Self) -> Self {
        spec_max(self, other, |x: u16, y: u16| x >= y)
    }

    proof fn lemma_merge_assoc(a: Self, b: Self, c: Self) {
    }

    fn merge(self, other: Self) -> (r: Self) {
        match (self, other) {
            (Max::NegInf, y) => y,
            (x, Max::NegInf) => x,
            (Max::Has(x), Max::Has(y)) => if x >= y { Max::Has(x) } else { Max::Has(y) },
        }
    }

    fn duplicate(&self) -> (r: Self) {
        *self
    }
}

impl Semigroup for Max<u128> {
    open spec fn spec_merge(self, other: Self) -> Self {
        spec_max(self, other, |x: u128, y: u128| x >= y)
    }

    proof fn lemma_merge_assoc(a: Self, b: Self, c: Self) {
    }

    fn merge(self, other: Self) -> (r: Self) {
        match (self, other) {
            (Max::NegInf, y) => y,
            (x, Max::NegInf) => x,
            (Max::Has(x), Max::Has(y)) => if x >= y { Max::Has(x) } else { Max::Has(y) },
        }
    }

    fn duplicate(&self) -> (r: Self) {
        *self
    }
}

impl Semigroup for Min<i8> {
    open spec fn spec_merge(self, other: Self) -> Self {
        spec_min(self, other, |x: i8, y: i8| x <= y)
    }

    proof fn lemma_merge_assoc(a: Self, b: Self, c: Self) {
    }

    fn merge(self, other: Self) -> (r: Self) {
        match (self, other) {
            (Min::Inf, y) => y,
            (x, Min::Inf) => x,
            (Min::Has(x), Min::Has(y)) => if x <= y { Min::Has(x) } else { Min::Has(y) },
        }
    }

    fn duplicate(&self) -> (r: Self) {
        *self
    }
}

impl Semigroup for Min<i16> {
    open spec fn spec_merge(self, other: Self) -> Self {
        spec_min(self, other, |x: i16, y: i16| x <= y)
    }

    proof fn lemma_merge_assoc(a: Self, b: Self, c: Self) {
    }

    fn merge(self, other: Self) -> (r: Self) {
        match (self, other) {
            (Min::Inf, y) => y,
            (x, Min::Inf) => x,
            (Min::Has(x), Min::Has(y)) => if x <= y { Min::Has(x) } else { Min::Has(y) },
        }
    }

    fn duplicate(&self) -> (r: Self) {
        *self
    }
}

impl Semigroup for Min<i128> {
    open spec fn spec_merge(self, other: Self) -> Self {
        spec_min(self, other, |x: i128, y: i128| x <= y)
    }

    proof fn lemma_merge_assoc(a: Self, b: Self, c: Self) {
    }

    fn merge(self, other: Self) -> (r: Self) {
        match (self, other) {
            (Min::Inf, y) => y,
            (x, Min::Inf) => x,
            (Min::Has(x), Min::Has(y)) => if x <= y { Min::Has(x) } else { Min::Has(y) },
        }
    }

    fn duplicate(&self) -> (r: Self) {
        *self
    }
}

impl Semigroup for Min<u8> {
    open spec fn spec_merge(self, other: Self) -> Self {
        spec_min(self, other, |x: u8, y: u8| x <= y)
    }

    proof fn lemma_merge_assoc(a: Self, b: Self, c: Self) {
    }

    fn merge(self, other: Self) -> (r: Self) {
        match (self, other) {
            (Min::Inf, y) => y,
            (x, Min::Inf) => x,
            (Min::Has(x), Min::Has(y)) => if x <= y { Min::Has(x) } else { Min::Has(y) },
        }
    }

    fn duplicate(&self) -> (r: Self) {
        *self
    }
}

impl Semigroup for Min<u16> {
    open spec fn spec_merge(self, other: Self) -> Self {
        spec_min(self, other, |x: u16, y: u16| x <= y)
    }

    proof fn lemma_merge_assoc(a: Self, b: Self, c: Self) {
    }

    fn merge(self, other: Self) -> (r: Self) {
        match (self, other) {
            (Min::Inf, y) => y,
            (x, Min::Inf) => x,
            (Min::Has(x), Min::Has(y)) => if x <= y { Min::Has(x) } else { Min::Has(y) },
        }
    }

    fn duplicate(&self) -> (r: Self) {
        *self
    }
}

impl Semigroup for Min<u128> {
    open spec fn spec_merge(self, other: Self) -> Self {
        spec_min(self, other, |x: u128, y: u128| x <= y)
    }

    proof fn lemma_merge_assoc(a: Self, b: Self, c: Self) {
    }

    fn merge(self, other: Self) -> (r: Self) {
        match (self, other) {
            (Min::Inf, y) => y,
            (x, Min::Inf) => x,
            (Min::Has(x), Min::Has(y)) => if x <= y { Min::Has(x) } else { Min::Has(y) },
        }
    }

    fn duplicate(&self) -> (r: Self) {
        *self
    }
}

impl Semigroup for Product<u8> {
    open spec fn spec_merge(self, other: Self) -> Self {
        Product(vstd::wrapping::u8_specs::wrapping_mul(self.0, other.0))
    }

    proof fn lemma_merge_assoc(a: Self, b: Self, c: Self) {
        let m: int = 0x100;
        let (x, y, z) = (a.0 as int, b.0 as int, c.0 as int);
        assert(((x * y) % m * z) % m == (x * y * z) % m) by {
            vstd::arithmetic::div_mod::lemma_mul_mod_noop_left(x * y, z, m);
        }
        assert((x * ((y * z) % m)) % m == (x * (y * z)) % m) by {
            vstd::arithmetic::div_mod::lemma_mul_mod_noop_right(x, y * z, m);
        }
        assert(x * (y * z) == x * y * z) by {
            vstd::arithmetic::mul::lemma_mul_is_associative(x, y, z);
        }
        assert(0 <= (x * y) % m < m) by {
            vstd::arithmetic::div_mod::lemma_mod_bound(x * y, m);
            vstd::arithmetic::mul::lemma_mul_nonnegative(x, y);
        }
        assert(0 <= (y * z) % m < m) by {
            vstd::arithmetic::div_mod::lemma_mod_bound(y * z, m);
            vstd::arithmetic::mul::lemma_mul_nonnegative(y, z);
        }
    }

    fn merge(self, other: Self) -> (r: Self) {
        Product(self.0.wrapping_mul(other.0))
    }

    fn duplicate(&self) -> (r: Self) {
        Product(self.0)
    }
}

impl Semigroup for Product<u16> {
    open spec fn spec_merge(self, other: Self) -> Self {
        Product(vstd::wrapping::u16_specs::wrapping_mul(self.0, other.0))
    }

    proof fn lemma_merge_assoc(a: Self, b: Self, c: Self) {
        let m: int = 0x1_0000;
        let (x, y, z) = (a.0 as int, b.0 as int, c.0 as int);
        assert(((x * y) % m * z) % m == (x * y * z) % m) by {
            vstd::arithmetic::div_mod::lemma_mul_mod_noop_left(x * y, z, m);
        }
        assert((x * ((y * z) % m)) % m == (x * (y * z)) % m) by {
            vstd::arithmetic::div_mod::lemma_mul_mod_noop_right(x, y * z, m);
        }
        assert(x * (y * z) == x * y * z) by {
            vstd::arithmetic::mul::lemma_mul_is_associative(x, y, z);
        }
        assert(0 <= (x * y) % m < m) by {
            vstd::arithmetic::div_mod::lemma_mod_bound(x * y, m);
            vstd::arithmetic::mul::lemma_mul_nonnegative(x, y);
        }
        assert(0 <= (y * z) % m < m) by {
            vstd::arithmetic::div_mod::lemma_mod_bound(y * z, m);
            vstd::arithmetic::mul::lemma_mul_nonnegative(y, z);
        }
    }

    fn merge(self, other: Self) -> (r: Self) {
        Product(self.0.wrapping_mul(other.0))
    }

    fn duplicate(&self) -> (r: Self) {
        Product(self.0)
    }
}

impl Semigroup for Product<u128> {
    open spec fn spec_merge(self, other: Self) -> Self {
        Product(vstd::wrapping::u128_specs::wrapping_mul(self.0, other.0))
    }

    proof fn lemma_merge_assoc(a: Self, b: Self, c: Self) {
        let m: int = u128::MAX as int + 1;
        let (x, y, z) = (a.0 as int, b.0 as int, c.0 as int);
        assert(((x * y) % m * z) % m == (x * y * z) % m) by {
            vstd::arithmetic::div_mod::lemma_mul_mod_noop_left(x * y, z, m);
        }
        assert((x * ((y * z) % m)) % m == (x * (y * z)) % m) by {
            vstd::arithmetic::div_mod::lemma_mul_mod_noop_right(x, y * z, m);
        }
        assert(x * (y * z) == x * y * z) by {
            vstd::arithmetic::mul::lemma_mul_is_associative(x, y, z);
        }
        assert(0 <= (x * y) % m < m) by {
            vstd::arithmetic::div_mod::lemma_mod_bound(x * y, m);
            vstd::arithmetic::mul::lemma_mul_nonnegative(x, y);
        }
        assert(0 <= (y * z) % m < m) by {
            vstd::arithmetic::div_mod::lemma_mod_bound(y * z, m);
            vstd::arithmetic::mul::lemma_mul_nonnegative(y, z);
        }
    }

    fn merge(self, other: Self) -> (r: Self) {
        Product(self.0.wrapping_mul(other.0))
    }

    fn duplicate(&self) -> (r: Self) {
        Product(self.0)
    }
}

} // verus!
