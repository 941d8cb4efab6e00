use super::persist;
use crate::data_structure::seg_tree as rc_seg_tree;
use super::tree::Applier;
use crate::traits::monoid::Monoid;
use crate::traits::semigroup::{Semigroup, Sum};
use crate::traits::laws::congruent;
use vstd::arithmetic::div_mod::{lemma_add_mod_noop, lemma_mod_equivalence, lemma_mul_mod_noop_right, lemma_mod_twice};
use vstd::prelude::*;

verus! {

/// Two to the 64th: the values of `i64` wrap around modulo this.
pub open spec fn wrap_modulus() -> int {
    0x1_0000_0000_0000_0000
}

/// Two values of `i64` are equal when they agree modulo `wrap_modulus()`.
proof fn lemma_i64_eq_mod(a: i64, b: i64)
    requires
        (a as int) % wrap_modulus() == (b as int) % wrap_modulus(),
    ensures
        a == b,
{
}

proof fn lemma_wrapping_add_mod(x: i64, y: i64)
    ensures
        (vstd::wrapping::i64_specs::wrapping_add(x, y) as int) % wrap_modulus() == (x + y) % wrap_modulus(),
{
}

proof fn lemma_wrapping_mul_mod(x: i64, y: i64)
    ensures
        (vstd::wrapping::i64_specs::wrapping_mul(x, y) as int) % wrap_modulus() == (x * y) % wrap_modulus(),
{
    lemma_mod_twice(x * y, wrap_modulus());
}

/// Adding `k` to each of the `n` elements whose sum is `s` gives the sum `s + k * n`, up to
/// a multiple of 2^64, and keeps the count.
pub proof fn lemma_add_applies_to_each(k: i64, s: i64, n: i64)
    ensures
        congruent(Add(k).spec_apply((Sum(s), Sum(n))).0.0 as int, s + k * n, wrap_modulus()),
        Add(k).spec_apply((Sum(s), Sum(n))).1 == Sum(n),
{
    let w = Add::spec_added(k, n);
    let r = Add(k).spec_apply((Sum(s), Sum(n))).0.0;
    let m = wrap_modulus();
    lemma_wrapping_add_mod(s, w);
    lemma_wrapping_mul_mod(k, n);
    lemma_add_mod_noop(s as int, w as int, m);
    lemma_add_mod_noop(s as int, k * n, m);
    lemma_mod_equivalence(r as int, s + k * n, m);
}

/// Adding `a` after adding `b` adds `a + b`, up to a multiple of 2^64.
pub proof fn lemma_add_merge_adds(a: i64, b: i64)
    ensures
        congruent(Add(a).spec_merge(Add(b)).0 as int, a + b, wrap_modulus()),
{
    lemma_wrapping_add_mod(a, b);
    lemma_mod_equivalence(Add(a).spec_merge(Add(b)).0 as int, a + b, wrap_modulus());
}

/// Adds a constant to every element of a range of a segment tree over pairs of a sum and a
/// count of elements.
#[derive(Clone, Copy, PartialEq, Eq, Debug)]
pub struct Add(pub i64);

impl Semigroup for Add {
    open spec fn spec_merge(self, other: Self) -> Self {
        Add(vstd::wrapping::i64_specs::wrapping_add(self.0, other.0))
    }

    proof fn lemma_merge_assoc(a: Self, b: Self, c: Self) {
    }

    fn merge(self, other: Self) -> (r: Self) {
        Add(self.0.wrapping_add(other.0))
    }

    fn duplicate(&self) -> (r: Self) {
        Add(self.0)
    }

    fn merge_assign(&mut self, other: &Self)
        where Self: Clone,
    {
        self.0 = self.0.wrapping_add(other.0);
    }

    fn prepend_assign(&mut self, other: &Self)
        where Self: Clone,
    {
        self.merge_assign(other);
    }
}

impl Monoid for Add {
    open spec fn spec_empty() -> Self {
        Add(0)
    }

    proof fn lemma_empty_identity(a: Self) {
    }

    fn empty() -> (r: Self) {
        Add(0)
    }

    fn is_empty(&self) -> (r: bool)
        ensures
            r == (*self == Self::spec_empty()),
    {
        self.0 == 0
    }
}

impl Add {
    /// What adding `k` to each of `n` elements adds to their sum, wrapping.
    pub open spec fn spec_added(k: i64, n: i64) -> i64 {
        vstd::wrapping::i64_specs::wrapping_mul(k, n)
    }
}

impl Applier<(Sum<i64>, Sum<i64>)> for Add {
    open spec fn spec_apply(&self, to: (Sum<i64>, Sum<i64>)) -> (Sum<i64>, Sum<i64>) {
        (Sum(vstd::wrapping::i64_specs::wrapping_add(to.0.0, Self::spec_added(self.0, to.1.0))), to.1)
    }

    proof fn lemma_apply_merge(&self, a: (Sum<i64>, Sum<i64>), b: (Sum<i64>, Sum<i64>)) {
        let m = wrap_modulus();
        let k = self.0;
        let (sa, na) = (a.0.0, a.1.0);
        let (sb, nb) = (b.0.0, b.1.0);
        let n = vstd::wrapping::i64_specs::wrapping_add(na, nb);
        let s = vstd::wrapping::i64_specs::wrapping_add(sa, sb);
        let lhs = vstd::wrapping::i64_specs::wrapping_add(s, Self::spec_added(k, n));
        let ta = vstd::wrapping::i64_specs::wrapping_add(sa, Self::spec_added(k, na));
        let tb = vstd::wrapping::i64_specs::wrapping_add(sb, Self::spec_added(k, nb));
        let rhs = vstd::wrapping::i64_specs::wrapping_add(ta, tb);
        lemma_wrapping_add_mod(s, Self::spec_added(k, n));
        lemma_wrapping_add_mod(sa, sb);
        lemma_wrapping_add_mod(sa, Self::spec_added(k, na));
        lemma_wrapping_add_mod(sb, Self::spec_added(k, nb));
        lemma_wrapping_add_mod(ta, tb);
        lemma_wrapping_mul_mod(k, n);
        lemma_wrapping_mul_mod(k, na);
        lemma_wrapping_mul_mod(k, nb);
        lemma_wrapping_add_mod(na, nb);
        lemma_mul_mod_noop_right(k as int, na + nb, m);
        lemma_mul_mod_noop_right(k as int, n as int, m);
        assert(k * (na + nb) == k * na + k * nb) by (nonlinear_arith);
        lemma_add_mod_noop(s as int, Self::spec_added(k, n) as int, m);
        lemma_add_mod_noop(sa as int, sb as int, m);
        lemma_add_mod_noop(sa as int, Self::spec_added(k, na) as int, m);
        lemma_add_mod_noop(sb as int, Self::spec_added(k, nb) as int, m);
        lemma_add_mod_noop(ta as int, tb as int, m);
        lemma_add_mod_noop(sa + sb, k * (na + nb), m);
        lemma_add_mod_noop(sa + k * na, sb + k * nb, m);
        lemma_add_mod_noop(sa as int, k * na, m);
        lemma_add_mod_noop(sb as int, k * nb, m);
        assert((lhs as int) % m == (sa + sb + k * (na + nb)) % m);
        assert((rhs as int) % m == (sa + k * na + (sb + k * nb)) % m);
        lemma_i64_eq_mod(lhs, rhs);
    }

    proof fn lemma_apply_identity(&self, a: (Sum<i64>, Sum<i64>)) {
        let one = (Sum(1i64), Sum(1i64));
        assert(a.spec_merge(one) == one);
        assert(a.1.0 == 0);
        lemma_wrapping_mul_mod(self.0, 0);
        lemma_i64_eq_mod(Self::spec_added(self.0, 0), 0);
    }

    proof fn lemma_apply_compose(m1: Self, m2: Self, v: (Sum<i64>, Sum<i64>)) {
        let m = wrap_modulus();
        let (s, n) = (v.0.0, v.1.0);
        let k = vstd::wrapping::i64_specs::wrapping_add(m1.0, m2.0);
        let lhs = vstd::wrapping::i64_specs::wrapping_add(s, Self::spec_added(k, n));
        let inner = vstd::wrapping::i64_specs::wrapping_add(s, Self::spec_added(m2.0, n));
        let rhs = vstd::wrapping::i64_specs::wrapping_add(inner, Self::spec_added(m1.0, n));
        lemma_wrapping_add_mod(m1.0, m2.0);
        lemma_wrapping_add_mod(s, Self::spec_added(k, n));
        lemma_wrapping_add_mod(s, Self::spec_added(m2.0, n));
        lemma_wrapping_add_mod(inner, Self::spec_added(m1.0, n));
        lemma_wrapping_mul_mod(k, n);
        lemma_wrapping_mul_mod(m1.0, n);
        lemma_wrapping_mul_mod(m2.0, n);
        vstd::arithmetic::div_mod::lemma_mul_mod_noop_left(k as int, n as int, m);
        vstd::arithmetic::div_mod::lemma_mul_mod_noop_left(m1.0 + m2.0, n as int, m);
        assert((m1.0 + m2.0) * n == m1.0 * n + m2.0 * n) by (nonlinear_arith);
        lemma_add_mod_noop(s as int, Self::spec_added(k, n) as int, m);
        lemma_add_mod_noop(s as int, k * n, m);
        lemma_add_mod_noop(s as int, (m1.0 + m2.0) * n, m);
        lemma_add_mod_noop(s as int, Self::spec_added(m2.0, n) as int, m);
        lemma_add_mod_noop(inner as int, Self::spec_added(m1.0, n) as int, m);
        lemma_add_mod_noop(s + m2.0 * n, m1.0 * n, m);
        lemma_add_mod_noop(s as int, m2.0 * n, m);
        lemma_add_mod_noop(inner as int, m1.0 * n, m);
        assert((lhs as int) % m == (s + (m1.0 + m2.0) * n) % m);
        assert((rhs as int) % m == (s + m2.0 * n + m1.0 * n) % m);
        lemma_i64_eq_mod(lhs, rhs);
    }

    proof fn lemma_identity_applies_nothing(&self, v: (Sum<i64>, Sum<i64>)) {
        assert(self.spec_merge(Add(1)) == Add(1));
        assert(self.0 == 0);
        lemma_wrapping_mul_mod(0, v.1.0);
        lemma_i64_eq_mod(Self::spec_added(0, v.1.0), 0);
    }

    fn apply(&self, to: &mut (Sum<i64>, Sum<i64>)) {
        let added = self.0.wrapping_mul(to.1.0);
        to.0 = Sum(to.0.0.wrapping_add(added));
    }
}

/// The same modifier for the segment tree whose leaf blocks know their size.
impl persist::Applier<(Sum<i64>, Sum<i64>)> for Add {
    open spec fn spec_apply(&self, to: (Sum<i64>, Sum<i64>)) -> (Sum<i64>, Sum<i64>) {
        <Add as Applier<(Sum<i64>, Sum<i64>)>>::spec_apply(self, to)
    }

    proof fn lemma_apply_merge(&self, a: (Sum<i64>, Sum<i64>), b: (Sum<i64>, Sum<i64>)) {
        <Add as Applier<(Sum<i64>, Sum<i64>)>>::lemma_apply_merge(self, a, b);
    }

    proof fn lemma_apply_identity(&self, a: (Sum<i64>, Sum<i64>)) {
        <Add as Applier<(Sum<i64>, Sum<i64>)>>::lemma_apply_identity(self, a);
    }

    proof fn lemma_apply_compose(m1: Self, m2: Self, v: (Sum<i64>, Sum<i64>)) {
        <Add as Applier<(Sum<i64>, Sum<i64>)>>::lemma_apply_compose(m1, m2, v);
    }

    proof fn lemma_identity_applies_nothing(&self, v: (Sum<i64>, Sum<i64>)) {
        <Add as Applier<(Sum<i64>, Sum<i64>)>>::lemma_identity_applies_nothing(self, v);
    }

    fn apply(&self, to: &mut (Sum<i64>, Sum<i64>)) {
        <Add as Applier<(Sum<i64>, Sum<i64>)>>::apply(self, to);
    }
}

/// The same modifier for the segment tree of shared nodes, which returns the modified value.
impl rc_seg_tree::Applier<(Sum<i64>, Sum<i64>)> for Add {
    open spec fn spec_apply(&self, to: (Sum<i64>, Sum<i64>)) -> (Sum<i64>, Sum<i64>) {
        <Add as Applier<(Sum<i64>, Sum<i64>)>>::spec_apply(self, to)
    }

    proof fn lemma_apply_merge(&self, a: (Sum<i64>, Sum<i64>), b: (Sum<i64>, Sum<i64>)) {
        <Add as Applier<(Sum<i64>, Sum<i64>)>>::lemma_apply_merge(self, a, b);
    }

    proof fn lemma_apply_identity(&self, a: (Sum<i64>, Sum<i64>)) {
        <Add as Applier<(Sum<i64>, Sum<i64>)>>::lemma_apply_identity(self, a);
    }

    proof fn lemma_apply_compose(m1: Self, m2: Self, v: (Sum<i64>, Sum<i64>)) {
        <Add as Applier<(Sum<i64>, Sum<i64>)>>::lemma_apply_compose(m1, m2, v);
    }

    proof fn lemma_identity_applies_nothing(&self, v: (Sum<i64>, Sum<i64>)) {
        <Add as Applier<(Sum<i64>, Sum<i64>)>>::lemma_identity_applies_nothing(self, v);
    }

    fn apply(&self, to: (Sum<i64>, Sum<i64>)) -> (r: (Sum<i64>, Sum<i64>)) {
        <Add as Applier<(Sum<i64>, Sum<i64>)>>::applied(self, to)
    }
}

/// Sums of `i64` for the segment tree whose merge takes its right operand by reference.
impl crate::seg_tree::Semigroup for Sum<i64> {
    open spec fn spec_merge(self, other: Self) -> Self {
        <Sum<i64> as Semigroup>::spec_merge(self, other)
    }

    proof fn lemma_merge_assoc(a: Self, b: Self, c: Self) {
        <Sum<i64> as Semigroup>::lemma_merge_assoc(a, b, c);
    }

    fn merge(self, other: &Self) -> (r: Self) {
        <Sum<i64> as Semigroup>::merge(self, *other)
    }

    fn duplicate(&self) -> (r: Self) {
        *self
    }
}

impl crate::seg_tree::Monoid for Sum<i64> {
    open spec fn spec_empty() -> Self {
        Sum(0i64)
    }

    proof fn lemma_empty_identity(a: Self) {
    }

    fn empty() -> (r: Self) {
        Sum(0i64)
    }
}

impl crate::seg_tree::Semigroup for Add {
    open spec fn spec_merge(self, other: Self) -> Self {
        <Add as Semigroup>::spec_merge(self, other)
    }

    proof fn lemma_merge_assoc(a: Self, b: Self, c: Self) {
        <Add as Semigroup>::lemma_merge_assoc(a, b, c);
    }

    fn merge(self, other: &Self) -> (r: Self) {
        <Add as Semigroup>::merge(self, *other)
    }

    fn duplicate(&self) -> (r: Self) {
        *self
    }
}

impl crate::seg_tree::Monoid for Add {
    open spec fn spec_empty() -> Self {
        Add(0)
    }

    proof fn lemma_empty_identity(a: Self) {
        <Add as Monoid>::lemma_empty_identity(a);
    }

    fn empty() -> (r: Self) {
        Add(0)
    }
}

/// The same modifier for the segment tree whose merge takes its right operand by reference.
impl crate::seg_tree::Applier<(Sum<i64>, Sum<i64>)> for Add {
    open spec fn spec_apply(&self, to: (Sum<i64>, Sum<i64>)) -> (Sum<i64>, Sum<i64>) {
        <Add as Applier<(Sum<i64>, Sum<i64>)>>::spec_apply(self, to)
    }

    proof fn lemma_apply_merge(&self, a: (Sum<i64>, Sum<i64>), b: (Sum<i64>, Sum<i64>)) {
        <Add as Applier<(Sum<i64>, Sum<i64>)>>::lemma_apply_merge(self, a, b);
    }

    proof fn lemma_apply_identity(&self, a: (Sum<i64>, Sum<i64>)) {
        assert(crate::traits::monoid::is_identity(a)) by {
            assert forall|x: (Sum<i64>, Sum<i64>)| #[trigger] a.spec_merge(x) == x && x.spec_merge(a) == x by {
                assert(crate::seg_tree::Semigroup::spec_merge(a, x) == x);
                assert(crate::seg_tree::Semigroup::spec_merge(x, a) == x);
            }
        }
        <Add as Applier<(Sum<i64>, Sum<i64>)>>::lemma_apply_identity(self, a);
    }

    proof fn lemma_apply_compose(m1: Self, m2: Self, v: (Sum<i64>, Sum<i64>)) {
        <Add as Applier<(Sum<i64>, Sum<i64>)>>::lemma_apply_compose(m1, m2, v);
    }

    proof fn lemma_identity_applies_nothing(&self, v: (Sum<i64>, Sum<i64>)) {
        assert(crate::traits::monoid::is_identity(*self)) by {
            assert forall|x: Add| #[trigger] self.spec_merge(x) == x && x.spec_merge(*self) == x by {
                assert(crate::seg_tree::Semigroup::spec_merge(*self, x) == x);
                assert(crate::seg_tree::Semigroup::spec_merge(x, *self) == x);
            }
        }
        <Add as Applier<(Sum<i64>, Sum<i64>)>>::lemma_identity_applies_nothing(self, v);
    }

    fn apply(&self, to: (Sum<i64>, Sum<i64>)) -> (r: (Sum<i64>, Sum<i64>)) {
        <Add as Applier<(Sum<i64>, Sum<i64>)>>::applied(self, to)
    }
}

} // verus!
