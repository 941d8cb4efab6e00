use super::semigroup::{fold1, Max, Min, Product, Semigroup, Sum};
use vstd::prelude::*;

verus! {

/// A semigroup with a two-sided identity:
/// `empty().merge(a) == a.merge(empty()) == a` (stated by `lemma_empty_identity`).
pub trait Monoid: Semigroup {
    /// The identity element.
    spec fn spec_empty() -> Self;

    /// `empty` is a two-sided identity of `merge`.
    proof fn lemma_empty_identity(a: Self)
        ensures
            Self::spec_empty().spec_merge(a) == a,
            a.spec_merge(Self::spec_empty()) == a,
    ;

    fn empty() -> (r: Self)
        ensures
            r == Self::spec_empty(),
    ;

    /// A hint for skipping work: `true` is returned only for a value equal to `empty()`.
    ///
    /// The default answers `false`, which is always correct and only skips less work.
    fn is_empty(&self) -> (r: bool)
        ensures
            r ==> *self == Self::spec_empty(),
    {
        false
    }
}

/// The merge of all values of `s`, from left to right; `empty` for an empty sequence.
pub open spec fn fold<V: Monoid>(s: Seq<V>) -> V
    decreases s.len(),
{
    if s.len() == 0 {
        V::spec_empty()
    } else {
        fold(s.drop_last()).spec_merge(s.last())
    }
}

/// The fold of one value is that value.
pub proof fn lemma_fold_singleton<V: Monoid>(v: V)
    ensures
        fold(seq![v]) == v,
{
    assert(seq![v].drop_last() =~= Seq::<V>::empty());
    assert(fold(Seq::<V>::empty()) == V::spec_empty());
    V::lemma_empty_identity(v);
}

/// Folding a concatenation merges the folds of its parts.
pub proof fn lemma_fold_concat<V: Monoid>(a: Seq<V>, b: Seq<V>)
    ensures
        fold(a + b) == fold(a).spec_merge(fold(b)),
    decreases b.len(),
{
    if b.len() == 0 {
        assert(a + b =~= a);
        V::lemma_empty_identity(fold(a));
    } else {
        assert((a + b).drop_last() =~= a + b.drop_last());
        assert((a + b).last() == b.last());
        lemma_fold_concat(a, b.drop_last());
        V::lemma_merge_assoc(fold(a), fold(b.drop_last()), b.last());
    }
}


/// The fold of the part of `s` that lies in `start..end`, both clamped to the length of `s`.
pub open spec fn range_fold<V: Monoid>(s: Seq<V>, start: int, end: int) -> V {
    let lo = if start < s.len() { start } else { s.len() as int };
    let hi = if end < s.len() { end } else { s.len() as int };
    if lo < hi {
        fold(s.subrange(lo, hi))
    } else {
        V::spec_empty()
    }
}

/// `s` with `f` applied to each element whose index lies in `start..end`.
pub open spec fn map_range<V>(s: Seq<V>, start: int, end: int, f: spec_fn(V) -> V) -> Seq<V> {
    Seq::new(s.len(), |i: int| if start <= i < end { f(s[i]) } else { s[i] })
}

/// `a` is a two-sided identity of `merge`.
pub open spec fn is_identity<V: Semigroup>(a: V) -> bool {
    forall|x: V| #[trigger] a.spec_merge(x) == x && x.spec_merge(a) == x
}

/// The identity of a monoid is an identity.
pub proof fn lemma_empty_is_identity<V: Monoid>()
    ensures
        is_identity(V::spec_empty()),
{
    assert forall|x: V| #[trigger] V::spec_empty().spec_merge(x) == x && x.spec_merge(V::spec_empty()) == x by {
        V::lemma_empty_identity(x);
    }
}

/// A map that distributes over `merge` and keeps `empty` commutes with folding.
pub proof fn lemma_fold_map<V: Monoid>(s: Seq<V>, f: spec_fn(V) -> V)
    requires
        forall|a: V, b: V| #[trigger] f(a.spec_merge(b)) == f(a).spec_merge(f(b)),
        f(V::spec_empty()) == V::spec_empty(),
    ensures
        f(fold(s)) == fold(s.map_values(f)),
    decreases s.len(),
{
    if s.len() > 0 {
        assert(s.map_values(f).drop_last() =~= s.drop_last().map_values(f));
        lemma_fold_map(s.drop_last(), f);
        assert(f(fold(s.drop_last()).spec_merge(s.last())) == f(fold(s.drop_last())).spec_merge(f(s.last())));
    }
}

/// For a non-empty sequence, `fold` and `fold1` agree.
pub proof fn lemma_fold_fold1<V: Monoid>(s: Seq<V>)
    requires
        s.len() > 0,
    ensures
        fold(s) == fold1(s),
    decreases s.len(),
{
    if s.len() == 1 {
        assert(s.drop_last() =~= Seq::<V>::empty());
        assert(fold(s.drop_last()) == V::spec_empty());
        V::lemma_empty_identity(s[0]);
    } else {
        lemma_fold_fold1(s.drop_last());
    }
}

/// Folding a sequence whose elements are all `empty` gives `empty`.
pub proof fn lemma_fold_all_empty<V: Monoid>(s: Seq<V>)
    requires
        forall|i: int| 0 <= i < s.len() ==> s[i] == V::spec_empty(),
    ensures
        fold(s) == V::spec_empty(),
    decreases s.len(),
{
    if s.len() > 0 {
        lemma_fold_all_empty(s.drop_last());
        V::lemma_empty_identity(V::spec_empty());
    }
}

/// `fold` of a range of `s` merges the folds of its two halves at `mid`.
pub proof fn lemma_fold_split<V: Monoid>(s: Seq<V>, lo: int, mid: int, hi: int)
    requires
        0 <= lo <= mid <= hi <= s.len(),
    ensures
        fold(s.subrange(lo, hi)) == fold(s.subrange(lo, mid)).spec_merge(fold(s.subrange(mid, hi))),
{
    assert(s.subrange(lo, hi) =~= s.subrange(lo, mid) + s.subrange(mid, hi));
    lemma_fold_concat(s.subrange(lo, mid), s.subrange(mid, hi));
}

impl<A: Monoid, B: Monoid> Monoid for (A, B) {
    open spec fn spec_empty() -> Self {
        (A::spec_empty(), B::spec_empty())
    }

    proof fn lemma_empty_identity(a: Self) {
        A::lemma_empty_identity(a.0);
        B::lemma_empty_identity(a.1);
    }

    fn empty() -> (r: Self) {
        (A::empty(), B::empty())
    }

    fn is_empty(&self) -> (r: bool) {
        self.0.is_empty() && self.1.is_empty()
    }
}

impl<T: Semigroup> Semigroup for Option<T> {
    open spec fn spec_merge(self, other: Self) -> Self {
        match (self, other) {
            (None, a) => a,
            (a, None) => a,
            (Some(a), Some(b)) => Some(a.spec_merge(b)),
        }
    }

    proof fn lemma_merge_assoc(a: Self, b: Self, c: Self) {
        if a.is_some() && b.is_some() && c.is_some() {
            T::lemma_merge_assoc(a.unwrap(), b.unwrap(), c.unwrap());
        }
    }

    fn merge(self, other: Self) -> (r: Self) {
        match (self, other) {
            (None, a) => a,
            (a, None) => a,
            (Some(a), Some(b)) => Some(T::merge(a, b)),
        }
    }

    fn duplicate(&self) -> (r: Self) {
        match self {
            None => None,
            Some(a) => Some(a.duplicate()),
        }
    }

    fn merge_assign(&mut self, other: &Self)
        where Self: Clone,
    {
        let left = self.take();
        *self = match (left, other.duplicate()) {
            (None, a) => a,
            (a, None) => a,
            (Some(a), Some(b)) => Some(T::merge(a, b)),
        };
    }

    fn prepend_assign(&mut self, other: &Self)
        where Self: Clone,
    {
        let right = self.take();
        *self = match (other.duplicate(), right) {
            (None, a) => a,
            (a, None) => a,
            (Some(a), Some(b)) => Some(T::merge(a, b)),
        };
    }
}

impl<T: Semigroup> Monoid for Option<T> {
    open spec fn spec_empty() -> Self {
        None
    }

    proof fn lemma_empty_identity(a: Self) {
    }

    fn empty() -> (r: Self) {
        None
    }

    fn is_empty(&self) -> (r: bool)
        ensures
            r == (self is None),
    {
        self.is_none()
    }
}

/// A count of elements; merging adds the counts (wrapping at `usize::MAX`).
#[derive(Clone, Copy, PartialEq, Eq, PartialOrd, Ord, Debug)]
pub struct Size(pub usize);

impl Semigroup for Size {
    open spec fn spec_merge(self, other: Self) -> Self {
        Size(vstd::wrapping::usize_specs::wrapping_add(self.0, other.0))
    }

    proof fn lemma_merge_assoc(a: Self, b: Self, c: Self) {
    }

    fn merge(self, other: Self) -> (r: Self) {
        Size(self.0.wrapping_add(other.0))
    }

    fn duplicate(&self) -> (r: Self) {
        Size(self.0)
    }

    fn merge_assign(&mut self, other: &Self)
        where Self: Clone,
    {
        self.0 = self.0.wrapping_add(other.0);
    }

    fn prepend_assign(&mut self, other: &Self)
        where Self: Clone,
    {
        self.merge_assign(other);
    }
}

impl Default for Size {
    /// The size of one element.
    fn default() -> (r: Self)
        ensures
            r == Size(1),
    {
        Size(1)
    }
}

impl Monoid for Size {
    open spec fn spec_empty() -> Self {
        Size(0)
    }

    proof fn lemma_empty_identity(a: Self) {
    }

    fn empty() -> (r: Self) {
        Size(0)
    }

    fn is_empty(&self) -> (r: bool)
        ensures
            r == (*self == Self::spec_empty()),
    {
        self.0 == 0
    }
}

impl Monoid for Sum<i32> {
    open spec fn spec_empty() -> Self {
        Sum(0i32)
    }

    proof fn lemma_empty_identity(a: Self) {
    }

    fn empty() -> (r: Self) {
        Sum(0i32)
    }

    fn is_empty(&self) -> (r: bool)
        ensures
            r == (*self == Self::spec_empty()),
    {
        self.0 == 0i32
    }
}

impl Monoid for Sum<i64> {
    open spec fn spec_empty() -> Self {
        Sum(0i64)
    }

    proof fn lemma_empty_identity(a: Self) {
    }

    fn empty() -> (r: Self) {
        Sum(0i64)
    }

    fn is_empty(&self) -> (r: bool)
        ensures
            r == (*self == Self::spec_empty()),
    {
        self.0 == 0i64
    }
}

impl Monoid for Sum<u32> {
    open spec fn spec_empty() -> Self {
        Sum(0u32)
    }

    proof fn lemma_empty_identity(a: Self) {
    }

    fn empty() -> (r: Self) {
        Sum(0u32)
    }

    fn is_empty(&self) -> (r: bool)
        ensures
            r == (*self == Self::spec_empty()),
    {
        self.0 == 0u32
    }
}

impl Monoid for Sum<u64> {
    open spec fn spec_empty() -> Self {
        Sum(0u64)
    }

    proof fn lemma_empty_identity(a: Self) {
    }

    fn empty() -> (r: Self) {
        Sum(0u64)
    }

    fn is_empty(&self) -> (r: bool)
        ensures
            r == (*self == Self::spec_empty()),
    {
        self.0 == 0u64
    }
}

impl Monoid for Sum<usize> {
    open spec fn spec_empty() -> Self {
        Sum(0usize)
    }

    proof fn lemma_empty_identity(a: Self) {
    }

    fn empty() -> (r: Self) {
        Sum(0usize)
    }

    fn is_empty(&self) -> (r: bool)
        ensures
            r == (*self == Self::spec_empty()),
    {
        self.0 == 0usize
    }
}

impl Monoid for Product<u32> {
    open spec fn spec_empty() -> Self {
        Product(1u32)
    }

    proof fn lemma_empty_identity(a: Self) {
        let m: int = 0x1_0000_0000;
        assert((a.0 as nat * 1nat) % (m as nat) == a.0 as nat) by {
            vstd::arithmetic::div_mod::lemma_small_mod(a.0 as nat, m as nat);
        }
        assert((1nat * a.0 as nat) % (m as nat) == a.0 as nat) by {
            vstd::arithmetic::div_mod::lemma_small_mod(a.0 as nat, m as nat);
        }
    }

    fn empty() -> (r: Self) {
        Product(1u32)
    }

    fn is_empty(&self) -> (r: bool)
        ensures
            r == (*self == Self::spec_empty()),
    {
        self.0 == 1u32
    }
}

impl Monoid for Product<u64> {
    open spec fn spec_empty() -> Self {
        Product(1u64)
    }

    proof fn lemma_empty_identity(a: Self) {
        let m: int = 0x1_0000_0000_0000_0000;
        assert((a.0 as nat * 1nat) % (m as nat) == a.0 as nat) by {
            vstd::arithmetic::div_mod::lemma_small_mod(a.0 as nat, m as nat);
        }
        assert((1nat * a.0 as nat) % (m as nat) == a.0 as nat) by {
            vstd::arithmetic::div_mod::lemma_small_mod(a.0 as nat, m as nat);
        }
    }

    fn empty() -> (r: Self) {
        Product(1u64)
    }

    fn is_empty(&self) -> (r: bool)
        ensures
            r == (*self == Self::spec_empty()),
    {
        self.0 == 1u64
    }
}

impl Monoid for Product<usize> {
    open spec fn spec_empty() -> Self {
        Product(1usize)
    }

    proof fn lemma_empty_identity(a: Self) {
        let m: int = (usize::MAX - usize::MIN + 1);
        assert((a.0 as nat * 1nat) % (m as nat) == a.0 as nat) by {
            vstd::arithmetic::div_mod::lemma_small_mod(a.0 as nat, m as nat);
        }
        assert((1nat * a.0 as nat) % (m as nat) == a.0 as nat) by {
            vstd::arithmetic::div_mod::lemma_small_mod(a.0 as nat, m as nat);
        }
    }

    fn empty() -> (r: Self) {
        Product(1usize)
    }

    fn is_empty(&self) -> (r: bool)
        ensures
            r == (*self == Self::spec_empty()),
    {
        self.0 == 1usize
    }
}

impl Monoid for Max<i32> {
    open spec fn spec_empty() -> Self {
        Max::NegInf
    }

    proof fn lemma_empty_identity(a: Self) {
    }

    fn empty() -> (r: Self) {
        Max::NegInf
    }

    fn is_empty(&self) -> (r: bool)
        ensures
            r == (*self == Self::spec_empty()),
    {
        matches!(self, Max::NegInf)
    }
}

impl Monoid for Min<i32> {
    open spec fn spec_empty() -> Self {
        Min::Inf
    }

    proof fn lemma_empty_identity(a: Self) {
    }

    fn empty() -> (r: Self) {
        Min::Inf
    }

    fn is_empty(&self) -> (r: bool)
        ensures
            r == (*self == Self::spec_empty()),
    {
        matches!(self, Min::Inf)
    }
}

impl Monoid for Max<i64> {
    open spec fn spec_empty() -> Self {
        Max::NegInf
    }

    proof fn lemma_empty_identity(a: Self) {
    }

    fn empty() -> (r: Self) {
        Max::NegInf
    }

    fn is_empty(&self) -> (r: bool)
        ensures
            r == (*self == Self::spec_empty()),
    {
        matches!(self, Max::NegInf)
    }
}

impl Monoid for Min<i64> {
    open spec fn spec_empty() -> Self {
        Min::Inf
    }

    proof fn lemma_empty_identity(a: Self) {
    }

    fn empty() -> (r: Self) {
        Min::Inf
    }

    fn is_empty(&self) -> (r: bool)
        ensures
            r == (*self == Self::spec_empty()),
    {
        matches!(self, Min::Inf)
    }
}

impl Monoid for Max<u32> {
    open spec fn spec_empty() -> Self {
        Max::NegInf
    }

    proof fn lemma_empty_identity(a: Self) {
    }

    fn empty() -> (r: Self) {
        Max::NegInf
    }

    fn is_empty(&self) -> (r: bool)
        ensures
            r == (*self == Self::spec_empty()),
    {
        matches!(self, Max::NegInf)
    }
}

impl Monoid for Min<u32> {
    open spec fn spec_empty() -> Self {
        Min::Inf
    }

    proof fn lemma_empty_identity(a: Self) {
    }

    fn empty() -> (r: Self) {
        Min::Inf
    }

    fn is_empty(&self) -> (r: bool)
        ensures
            r == (*self == Self::spec_empty()),
    {
        matches!(self, Min::Inf)
    }
}

impl Monoid for Max<u64> {
    open spec fn spec_empty() -> Self {
        Max::NegInf
    }

    proof fn lemma_empty_identity(a: Self) {
    }

    fn empty() -> (r: Self) {
        Max::NegInf
    }

    fn is_empty(&self) -> (r: bool)
        ensures
            r == (*self == Self::spec_empty()),
    {
        matches!(self, Max::NegInf)
    }
}

impl Monoid for Min<u64> {
    open spec fn spec_empty() -> Self {
        Min::Inf
    }

    proof fn lemma_empty_identity(a: Self) {
    }

    fn empty() -> (r: Self) {
        Min::Inf
    }

    fn is_empty(&self) -> (r: bool)
        ensures
            r == (*self == Self::spec_empty()),
    {
        matches!(self, Min::Inf)
    }
}

impl Monoid for Max<usize> {
    open spec fn spec_empty() -> Self {
        Max::NegInf
    }

    proof fn lemma_empty_identity(a: Self) {
    }

    fn empty() -> (r: Self) {
        Max::NegInf
    }

    fn is_empty(&self) -> (r: bool)
        ensures
            r == (*self == Self::spec_empty()),
    {
        matches!(self, Max::NegInf)
    }
}

impl Monoid for Min<usize> {
    open spec fn spec_empty() -> Self {
        Min::Inf
    }

    proof fn lemma_empty_identity(a: Self) {
    }

    fn empty() -> (r: Self) {
        Min::Inf
    }

    fn is_empty(&self) -> (r: bool)
        ensures
            r == (*self == Self::spec_empty()),
    {
        matches!(self, Min::Inf)
    }
}

impl Monoid for Sum<i8> {
    open spec fn spec_empty() -> Self {
        Sum(0i8)
    }

    proof fn lemma_empty_identity(a: Self) {
    }

    fn empty() -> (r: Self) {
        Sum(0i8)
    }

    fn is_empty(&self) -> (r: bool)
        ensures
            r == (*self == Self::spec_empty()),
    {
        self.0 == 0i8
    }
}

impl Monoid for Sum<i16> {
    open spec fn spec_empty() -> Self {
        Sum(0i16)
    }

    proof fn lemma_empty_identity(a: Self) {
    }

    fn empty() -> (r: Self) {
        Sum(0i16)
    }

    fn is_empty(&self) -> (r: bool)
        ensures
            r == (*self == Self::spec_empty()),
    {
        self.0 == 0i16
    }
}

impl Monoid for Sum<i128> {
    open spec fn spec_empty() -> Self {
        Sum(0i128)
    }

    proof fn lemma_empty_identity(a: Self) {
    }

    fn empty() -> (r: Self) {
        Sum(0i128)
    }

    fn is_empty(&self) -> (r: bool)
        ensures
            r == (*self == Self::spec_empty()),
    {
        self.0 == 0i128
    }
}

impl Monoid for Sum<u8> {
    open spec fn spec_empty() -> Self {
        Sum(0u8)
    }

    proof fn lemma_empty_identity(a: Self) {
    }

    fn empty() -> (r: Self) {
        Sum(0u8)
    }

    fn is_empty(&self) -> (r: bool)
        ensures
            r == (*self == Self::spec_empty()),
    {
        self.0 == 0u8
    }
}

impl Monoid for Sum<u16> {
    open spec fn spec_empty() -> Self {
        Sum(0u16)
    }

    proof fn lemma_empty_identity(a: Self) {
    }

    fn empty() -> (r: Self) {
        Sum(0u16)
    }

    fn is_empty(&self) -> (r: bool)
        ensures
            r == (*self == Self::spec_empty()),
    {
        self.0 == 0u16
    }
}

impl Monoid for Sum<u128> {
    open spec fn spec_empty() -> Self {
        Sum(0u128)
    }

    proof fn lemma_empty_identity(a: Self) {
    }

    fn empty() -> (r: Self) {
        Sum(0u128)
    }

    fn is_empty(&self) -> (r: bool)
        ensures
            r == (*self == Self::spec_empty()),
    {
        self.0 == 0u128
    }
}

impl Monoid for Max<i8> {
    open spec fn spec_empty() -> Self {
        Max::NegInf
    }

    proof fn lemma_empty_identity(a: Self) {
    }

    fn empty() -> (r: Self) {
        Max::NegInf
    }

    fn is_empty(&self) -> (r: bool)
        ensures
            r == (*self == Self::spec_empty()),
    {
        matches!(self, Max::NegInf)
    }
}

impl Monoid for Max<i16> {
    open spec fn spec_empty() -> Self {
        Max::NegInf
    }

    proof fn lemma_empty_identity(a: Self) {
    }

    fn empty() -> (r: Self) {
        Max::NegInf
    }

    fn is_empty(&self) -> (r: bool)
        ensures
            r == (*self == Self::spec_empty()),
    {
        matches!(self, Max::NegInf)
    }
}

impl Monoid for Max<i128> {
    open spec fn spec_empty() -> Self {
        Max::NegInf
    }

    proof fn lemma_empty_identity(a: Self) {
    }

    fn empty() -> (r: Self) {
        Max::NegInf
    }

    fn is_empty(&self) -> (r: bool)
        ensures
            r == (*self == Self::spec_empty()),
    {
        matches!(self, Max::NegInf)
    }
}

impl Monoid for Max<u8> {
    open spec fn spec_empty() -> Self {
        Max::NegInf
    }

    proof fn lemma_empty_identity(a: Self) {
    }

    fn empty() -> (r: Self) {
        Max::NegInf
    }

    fn is_empty(&self) -> (r: bool)
        ensures
            r == (*self == Self::spec_empty()),
    {
        matches!(self, Max::NegInf)
    }
}

impl Monoid for Max<u16> {
    open spec fn spec_empty() -> Self {
        Max::NegInf
    }

    proof fn lemma_empty_identity(a: Self) {
    }

    fn empty() -> (r: Self) {
        Max::NegInf
    }

    fn is_empty(&self) -> (r: bool)
        ensures
            r == (*self == Self::spec_empty()),
    {
        matches!(self, Max::NegInf)
    }
}

impl Monoid for Max<u128> {
    open spec fn spec_empty() -> Self {
        Max::NegInf
    }

    proof fn lemma_empty_identity(a: Self) {
    }

    fn empty() -> (r: Self) {
        Max::NegInf
    }

    fn is_empty(&self) -> (r: bool)
        ensures
            r == (*self == Self::spec_empty()),
    {
        matches!(self, Max::NegInf)
    }
}

impl Monoid for Min<i8> {
    open spec fn spec_empty() -> Self {
        Min::Inf
    }

    proof fn lemma_empty_identity(a: Self) {
    }

    fn empty() -> (r: Self) {
        Min::Inf
    }

    fn is_empty(&self) -> (r: bool)
        ensures
            r == (*self == Self::spec_empty()),
    {
        matches!(self, Min::Inf)
    }
}

impl Monoid for Min<i16> {
    open spec fn spec_empty() -> Self {
        Min::Inf
    }

    proof fn lemma_empty_identity(a: Self) {
    }

    fn empty() -> (r: Self) {
        Min::Inf
    }

    fn is_empty(&self) -> (r: bool)
        ensures
            r == (*self == Self::spec_empty()),
    {
        matches!(self, Min::Inf)
    }
}

impl Monoid for Min<i128> {
    open spec fn spec_empty() -> Self {
        Min::Inf
    }

    proof fn lemma_empty_identity(a: Self) {
    }

    fn empty() -> (r: Self) {
        Min::Inf
    }

    fn is_empty(&self) -> (r: bool)
        ensures
            r == (*self == Self::spec_empty()),
    {
        matches!(self, Min::Inf)
    }
}

impl Monoid for Min<u8> {
    open spec fn spec_empty() -> Self {
        Min::Inf
    }

    proof fn lemma_empty_identity(a: Self) {
    }

    fn empty() -> (r: Self) {
        Min::Inf
    }

    fn is_empty(&self) -> (r: bool)
        ensures
            r == (*self == Self::spec_empty()),
    {
        matches!(self, Min::Inf)
    }
}

impl Monoid for Min<u16> {
    open spec fn spec_empty() -> Self {
        Min::Inf
    }

    proof fn lemma_empty_identity(a: Self) {
    }

    fn empty() -> (r: Self) {
        Min::Inf
    }

    fn is_empty(&self) -> (r: bool)
        ensures
            r == (*self == Self::spec_empty()),
    {
        matches!(self, Min::Inf)
    }
}

impl Monoid for Min<u128> {
    open spec fn spec_empty() -> Self {
        Min::Inf
    }

    proof fn lemma_empty_identity(a: Self) {
    }

    fn empty() -> (r: Self) {
        Min::Inf
    }

    fn is_empty(&self) -> (r: bool)
        ensures
            r == (*self == Self::spec_empty()),
    {
        matches!(self, Min::Inf)
    }
}

impl Monoid for Product<u8> {
    open spec fn spec_empty() -> Self {
        Product(1u8)
    }

    proof fn lemma_empty_identity(a: Self) {
        let m: int = 0x100;
        assert((a.0 as nat * 1nat) % (m as nat) == a.0 as nat) by {
            vstd::arithmetic::div_mod::lemma_small_mod(a.0 as nat, m as nat);
        }
        assert((1nat * a.0 as nat) % (m as nat) == a.0 as nat) by {
            vstd::arithmetic::div_mod::lemma_small_mod(a.0 as nat, m as nat);
        }
    }

    fn empty() -> (r: Self) {
        Product(1u8)
    }

    fn is_empty(&self) -> (r: bool)
        ensures
            r == (*self == Self::spec_empty()),
    {
        self.0 == 1u8
    }
}

impl Monoid for Product<u16> {
    open spec fn spec_empty() -> Self {
        Product(1u16)
    }

    proof fn lemma_empty_identity(a: Self) {
        let m: int = 0x1_0000;
        assert((a.0 as nat * 1nat) % (m as nat) == a.0 as nat) by {
            vstd::arithmetic::div_mod::lemma_small_mod(a.0 as nat, m as nat);
        }
        assert((1nat * a.0 as nat) % (m as nat) == a.0 as nat) by {
            vstd::arithmetic::div_mod::lemma_small_mod(a.0 as nat, m as nat);
        }
    }

    fn empty() -> (r: Self) {
        Product(1u16)
    }

    fn is_empty(&self) -> (r: bool)
        ensures
            r == (*self == Self::spec_empty()),
    {
        self.0 == 1u16
    }
}

impl Monoid for Product<u128> {
    open spec fn spec_empty() -> Self {
        Product(1u128)
    }

    proof fn lemma_empty_identity(a: Self) {
        let m: int = u128::MAX as int + 1;
        assert((a.0 as nat * 1nat) % (m as nat) == a.0 as nat) by {
            vstd::arithmetic::div_mod::lemma_small_mod(a.0 as nat, m as nat);
        }
        assert((1nat * a.0 as nat) % (m as nat) == a.0 as nat) by {
            vstd::arithmetic::div_mod::lemma_small_mod(a.0 as nat, m as nat);
        }
    }

    fn empty() -> (r: Self) {
        Product(1u128)
    }

    fn is_empty(&self) -> (r: bool)
        ensures
            r == (*self == Self::spec_empty()),
    {
        self.0 == 1u128
    }
}

} // verus!
