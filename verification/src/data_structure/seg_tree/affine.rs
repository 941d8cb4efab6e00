use super::tree::Applier;
use crate::data_structure::seg_tree as rc_seg_tree;
use crate::traits::monoid::{is_identity, range_fold, Monoid};
use crate::traits::semigroup::Semigroup;
use crate::traits::laws::congruent;
use crate::traits::monoid::fold;
use vstd::arithmetic::div_mod::{
    lemma_add_mod_noop, lemma_add_mod_noop_right, lemma_fundamental_div_mod, lemma_mod_bound,
    lemma_mod_multiples_basic, lemma_mul_mod_noop_left, lemma_mul_mod_noop_right,
};
use vstd::prelude::*;

verus! {

/// `x` modulo `p`; zero for a zero modulus.
pub open spec fn md(x: int, p: u64) -> u64 {
    if p == 0 {
        0
    } else {
        (x % (p as int)) as u64
    }
}

/// `x` modulo `p`, computed.
fn modulo(x: u128, p: u64) -> (r: u64)
    ensures
        r == md(x as int, p),
{
    if p == 0 {
        0
    } else {
        (x % (p as u128)) as u64
    }
}

/// `a * b + c`, which fits in 128 bits.
fn mul_add(a: u64, b: u64, c: u64) -> (r: u128)
    ensures
        r == a * b + c,
{
    proof {
        assert(a * b <= 0xffff_ffff_ffff_ffff * 0xffff_ffff_ffff_ffffint) by (nonlinear_arith)
            requires
                a <= 0xffff_ffff_ffff_ffffint,
                b <= 0xffff_ffff_ffff_ffffint,
                0 <= a,
                0 <= b,
        ;
    }
    a as u128 * b as u128 + c as u128
}

/// The sum of a range of values modulo `modulus`, with the number of values in it. `Zero`
/// is the sum of no values; `Mixed` is what merging sums of two moduli, or more values than
/// a `u64` counts, gives.
#[derive(Clone, Copy, PartialEq, Eq, Debug)]
pub enum ModSum {
    Zero,
    Has { sum: u64, len: u64, modulus: u64 },
    Mixed,
}

/// The map `x -> mul * x + add` modulo `modulus`. `Id` maps every value to itself; `Mixed`
/// is what composing maps of two moduli gives.
#[derive(Clone, Copy, PartialEq, Eq, Debug)]
pub enum Linear {
    Id,
    Affine { mul: u64, add: u64, modulus: u64 },
    Mixed,
}

proof fn lemma_sum_assoc(a: int, b: int, c: int, p: int)
    requires
        p > 0,
    ensures
        ((a + b) % p + c) % p == (a + (b + c) % p) % p,
{
    lemma_add_mod_noop_right(c, a + b, p);
    lemma_add_mod_noop_right(a, b + c, p);
    assert(c + (a + b) == a + (b + c));
}

proof fn lemma_apply_sum(k: int, add: int, s1: int, l1: int, s2: int, l2: int, p: int)
    requires
        p > 0,
    ensures
        (k * ((s1 + s2) % p) + add * (l1 + l2)) % p == ((k * s1 + add * l1) % p + (k * s2 + add * l2) % p) % p,
{
    let x = k * ((s1 + s2) % p);
    let y = add * (l1 + l2);
    lemma_add_mod_noop(x, y, p);
    lemma_mul_mod_noop_right(k, s1 + s2, p);
    lemma_add_mod_noop(k * (s1 + s2), y, p);
    lemma_add_mod_noop(k * s1 + add * l1, k * s2 + add * l2, p);
    assert(k * (s1 + s2) + add * (l1 + l2) == (k * s1 + add * l1) + (k * s2 + add * l2)) by (nonlinear_arith);
}

proof fn lemma_apply_twice(k1: int, b1: int, k2: int, b2: int, s: int, l: int, p: int)
    requires
        p > 0,
    ensures
        (k1 * ((k2 * s + b2 * l) % p) + b1 * l) % p == (((k1 * k2) % p) * s + ((k1 * b2 + b1) % p) * l) % p,
{
    let inner = k2 * s + b2 * l;
    lemma_add_mod_noop(k1 * (inner % p), b1 * l, p);
    lemma_mul_mod_noop_right(k1, inner, p);
    lemma_add_mod_noop(k1 * inner, b1 * l, p);
    let a = (k1 * k2) % p * s;
    let b = (k1 * b2 + b1) % p * l;
    lemma_add_mod_noop(a, b, p);
    lemma_mul_mod_noop_left(k1 * k2, s, p);
    lemma_mul_mod_noop_left(k1 * b2 + b1, l, p);
    lemma_add_mod_noop(k1 * k2 * s, (k1 * b2 + b1) * l, p);
    assert(k1 * inner + b1 * l == k1 * k2 * s + (k1 * b2 + b1) * l) by (nonlinear_arith)
        requires
            inner == k2 * s + b2 * l,
    ;
}

proof fn lemma_compose_assoc(k1: int, b1: int, k2: int, b2: int, k3: int, b3: int, p: int)
    requires
        p > 0,
    ensures
        ((k1 * k2) % p * k3) % p == (k1 * ((k2 * k3) % p)) % p,
        ((k1 * k2) % p * b3 + (k1 * b2 + b1) % p) % p == (k1 * ((k2 * b3 + b2) % p) + b1) % p,
{
    lemma_mul_mod_noop_left(k1 * k2, k3, p);
    lemma_mul_mod_noop_right(k1, k2 * k3, p);
    assert(k1 * k2 * k3 == k1 * (k2 * k3)) by (nonlinear_arith);
    let x = (k1 * k2) % p * b3;
    lemma_add_mod_noop_right(x, k1 * b2 + b1, p);
    lemma_add_mod_noop(x, k1 * b2 + b1, p);
    lemma_mul_mod_noop_left(k1 * k2, b3, p);
    lemma_add_mod_noop(k1 * k2 * b3, k1 * b2 + b1, p);
    let w = k1 * ((k2 * b3 + b2) % p);
    lemma_add_mod_noop(w, b1, p);
    lemma_mul_mod_noop_right(k1, k2 * b3 + b2, p);
    lemma_add_mod_noop(k1 * (k2 * b3 + b2), b1, p);
    assert(k1 * k2 * b3 + (k1 * b2 + b1) == k1 * (k2 * b3 + b2) + b1) by (nonlinear_arith);
}

impl Semigroup for ModSum {
    open spec fn spec_merge(self, other: Self) -> Self {
        match (self, other) {
            (ModSum::Zero, b) => b,
            (a, ModSum::Zero) => a,
            (ModSum::Has { sum: s1, len: l1, modulus: p1 }, ModSum::Has { sum: s2, len: l2, modulus: p2 }) => {
                if p1 == p2 && l1 + l2 <= u64::MAX {
                    ModSum::Has { sum: md(s1 + s2, p1), len: (l1 + l2) as u64, modulus: p1 }
                } else {
                    ModSum::Mixed
                }
            },
            _ => ModSum::Mixed,
        }
    }

    proof fn lemma_merge_assoc(a: Self, b: Self, c: Self) {
        if let (ModSum::Has { sum: s1, modulus: p, .. }, ModSum::Has { sum: s2, .. }, ModSum::Has { sum: s3, .. }) = (a, b, c) {
            if p > 0 {
                lemma_sum_assoc(s1 as int, s2 as int, s3 as int, p as int);
            }
        }
    }

    fn merge(self, other: Self) -> (r: Self) {
        match (self, other) {
            (ModSum::Zero, b) => b,
            (a, ModSum::Zero) => a,
            (ModSum::Has { sum: s1, len: l1, modulus: p1 }, ModSum::Has { sum: s2, len: l2, modulus: p2 }) => {
                if p1 == p2 && l1 <= u64::MAX - l2 {
                    ModSum::Has { sum: modulo(s1 as u128 + s2 as u128, p1), len: l1 + l2, modulus: p1 }
                } else {
                    ModSum::Mixed
                }
            },
            _ => ModSum::Mixed,
        }
    }

    fn duplicate(&self) -> (r: Self) {
        *self
    }
}

impl Monoid for ModSum {
    open spec fn spec_empty() -> Self {
        ModSum::Zero
    }

    proof fn lemma_empty_identity(a: Self) {
    }

    fn empty() -> (r: Self) {
        ModSum::Zero
    }

    fn is_empty(&self) -> (r: bool)
        ensures
            r == (*self == ModSum::Zero),
    {
        matches!(self, ModSum::Zero)
    }
}

impl ModSum {
    /// One value, `value` modulo `modulus`.
    pub fn single(value: u64, modulus: u64) -> (r: Self)
        ensures
            r == (ModSum::Has { sum: md(value as int, modulus), len: 1, modulus }),
    {
        ModSum::Has { sum: modulo(value as u128, modulus), len: 1, modulus }
    }

    /// An identity value is `Zero`.
    proof fn lemma_identity_is_zero(a: Self)
        requires
            is_identity(a),
        ensures
            a == ModSum::Zero,
    {
        match a {
            ModSum::Has { modulus, .. } => {
                let q: u64 = if modulus == 0 { 1 } else { 0 };
                let x = ModSum::Has { sum: 0, len: 0, modulus: q };
                assert(a.spec_merge(x) == x);
            },
            ModSum::Mixed => {
                let x = ModSum::Has { sum: 0, len: 0, modulus: 0 };
                assert(a.spec_merge(x) == x);
            },
            ModSum::Zero => {},
        }
    }
}

impl Semigroup for Linear {
    /// `self` after `other`.
    open spec fn spec_merge(self, other: Self) -> Self {
        match (self, other) {
            (Linear::Id, b) => b,
            (a, Linear::Id) => a,
            (Linear::Affine { mul: k1, add: b1, modulus: p1 }, Linear::Affine { mul: k2, add: b2, modulus: p2 }) => {
                if p1 == p2 {
                    Linear::Affine { mul: md(k1 * k2, p1), add: md(k1 * b2 + b1, p1), modulus: p1 }
                } else {
                    Linear::Mixed
                }
            },
            _ => Linear::Mixed,
        }
    }

    proof fn lemma_merge_assoc(a: Self, b: Self, c: Self) {
        if let (
            Linear::Affine { mul: k1, add: b1, modulus: p },
            Linear::Affine { mul: k2, add: b2, .. },
            Linear::Affine { mul: k3, add: b3, .. },
        ) = (a, b, c) {
            if p > 0 {
                lemma_compose_assoc(k1 as int, b1 as int, k2 as int, b2 as int, k3 as int, b3 as int, p as int);
            }
        }
    }

    fn merge(self, other: Self) -> (r: Self) {
        match (self, other) {
            (Linear::Id, b) => b,
            (a, Linear::Id) => a,
            (Linear::Affine { mul: k1, add: b1, modulus: p1 }, Linear::Affine { mul: k2, add: b2, modulus: p2 }) => {
                if p1 == p2 {
                    let mul = modulo(mul_add(k1, k2, 0), p1);
                    let add = modulo(mul_add(k1, b2, b1), p1);
                    Linear::Affine { mul, add, modulus: p1 }
                } else {
                    Linear::Mixed
                }
            },
            _ => Linear::Mixed,
        }
    }

    fn duplicate(&self) -> (r: Self) {
        *self
    }
}

impl Monoid for Linear {
    open spec fn spec_empty() -> Self {
        Linear::Id
    }

    proof fn lemma_empty_identity(a: Self) {
    }

    fn empty() -> (r: Self) {
        Linear::Id
    }

    fn is_empty(&self) -> (r: bool)
        ensures
            r == (*self == Linear::Id),
    {
        matches!(self, Linear::Id)
    }
}

impl Linear {
    /// An identity map is `Id`.
    proof fn lemma_identity_is_id(m: Self)
        requires
            is_identity(m),
        ensures
            m == Linear::Id,
    {
        match m {
            Linear::Affine { modulus, .. } => {
                let q: u64 = if modulus == 0 { 1 } else { 0 };
                let x = Linear::Affine { mul: 1, add: 0, modulus: q };
                assert(m.spec_merge(x) == x);
            },
            Linear::Mixed => {
                let x = Linear::Affine { mul: 1, add: 0, modulus: 0 };
                assert(m.spec_merge(x) == x);
            },
            Linear::Id => {},
        }
    }
}

impl Applier<ModSum> for Linear {
    open spec fn spec_apply(&self, to: ModSum) -> ModSum {
        match (*self, to) {
            (_, ModSum::Zero) => ModSum::Zero,
            (Linear::Id, v) => v,
            (Linear::Affine { mul: k, add: b, modulus: p }, ModSum::Has { sum: s, len: l, modulus: q }) => {
                if p == q {
                    ModSum::Has { sum: md(k * s + b * l, p), len: l, modulus: p }
                } else {
                    ModSum::Mixed
                }
            },
            _ => ModSum::Mixed,
        }
    }

    proof fn lemma_apply_merge(&self, a: ModSum, b: ModSum) {
        if let (
            Linear::Affine { mul: k, add: bb, modulus: p },
            ModSum::Has { sum: s1, len: l1, .. },
            ModSum::Has { sum: s2, len: l2, .. },
        ) = (*self, a, b) {
            if p > 0 {
                lemma_apply_sum(k as int, bb as int, s1 as int, l1 as int, s2 as int, l2 as int, p as int);
            }
        }
    }

    proof fn lemma_apply_identity(&self, a: ModSum) {
        ModSum::lemma_identity_is_zero(a);
    }

    proof fn lemma_apply_compose(m1: Self, m2: Self, v: ModSum) {
        if let (
            Linear::Affine { mul: k1, add: b1, modulus: p },
            Linear::Affine { mul: k2, add: b2, .. },
            ModSum::Has { sum: s, len: l, .. },
        ) = (m1, m2, v) {
            if p > 0 {
                lemma_apply_twice(k1 as int, b1 as int, k2 as int, b2 as int, s as int, l as int, p as int);
            }
        }
    }

    proof fn lemma_identity_applies_nothing(&self, v: ModSum) {
        Self::lemma_identity_is_id(*self);
    }

    fn apply(&self, to: &mut ModSum) {
        let r = match (*self, *to) {
            (_, ModSum::Zero) => ModSum::Zero,
            (Linear::Id, v) => v,
            (Linear::Affine { mul: k, add: b, modulus: p }, ModSum::Has { sum: s, len: l, modulus: q }) => {
                if p == q {
                    let scaled = modulo(mul_add(k, s, 0), p);
                    let added = modulo(mul_add(b, l, 0), p);
                    let sum = modulo(scaled as u128 + added as u128, p);
                    proof {
                        if p > 0 {
                            lemma_add_mod_noop(k * s, b * l, p as int);
                        }
                    }
                    ModSum::Has { sum, len: l, modulus: p }
                } else {
                    ModSum::Mixed
                }
            },
            _ => ModSum::Mixed,
        };
        *to = r;
    }
}

impl Linear {
    /// The map `x -> mul * x + add` modulo `modulus`.
    pub fn new(mul: u64, add: u64, modulus: u64) -> (r: Self)
        ensures
            r == (Linear::Affine { mul, add, modulus }),
    {
        Linear::Affine { mul, add, modulus }
    }
}

/// The same map for the segment tree of shared nodes.
impl rc_seg_tree::Applier<ModSum> for Linear {
    open spec fn spec_apply(&self, to: ModSum) -> ModSum {
        <Linear as Applier<ModSum>>::spec_apply(self, to)
    }

    proof fn lemma_apply_merge(&self, a: ModSum, b: ModSum) {
        <Linear as Applier<ModSum>>::lemma_apply_merge(self, a, b);
    }

    proof fn lemma_apply_identity(&self, a: ModSum) {
        <Linear as Applier<ModSum>>::lemma_apply_identity(self, a);
    }

    proof fn lemma_apply_compose(m1: Self, m2: Self, v: ModSum) {
        <Linear as Applier<ModSum>>::lemma_apply_compose(m1, m2, v);
    }

    proof fn lemma_identity_applies_nothing(&self, v: ModSum) {
        <Linear as Applier<ModSum>>::lemma_identity_applies_nothing(self, v);
    }

    fn apply(&self, to: ModSum) -> (r: ModSum) {
        <Linear as Applier<ModSum>>::applied(self, to)
    }
}

/// `md(x, p)` is the remainder of `x` modulo `p`: it lies below `p`, and `x` differs from it
/// by a multiple of `p`.
pub proof fn lemma_md_is_remainder(x: int, p: u64)
    requires
        p > 0,
    ensures
        md(x, p) < p,
        congruent(md(x, p) as int, x, p as int),
{
    let m = p as int;
    lemma_fundamental_div_mod(x, m);
    lemma_mod_bound(x, m);
    lemma_mod_multiples_basic(-(x / m), m);
    assert(x % m - x == (-(x / m)) * m) by (nonlinear_arith)
        requires
            x == m * (x / m) + x % m,
    ;
}

/// The sum of a sequence of numbers.
pub open spec fn total(vals: Seq<int>) -> int
    decreases vals.len(),
{
    if vals.len() == 0 {
        0
    } else {
        total(vals.drop_last()) + vals.last()
    }
}

/// Each number of `vals` as a sum of one value modulo `p`, the way `ModSum::single` makes it.
pub open spec fn singles(vals: Seq<int>, p: u64) -> Seq<ModSum> {
    Seq::new(vals.len(), |i: int| ModSum::Has { sum: md(vals[i], p), len: 1, modulus: p })
}

/// Folding sums of one value each, all modulo `p`, gives the sum of the values modulo `p`
/// and their count.
pub proof fn lemma_fold_singles(vals: Seq<int>, p: u64)
    requires
        p > 0,
        0 < vals.len() <= u64::MAX,
    ensures
        fold(singles(vals, p)) == (ModSum::Has { sum: (total(vals) % (p as int)) as u64, len: vals.len() as u64, modulus: p }),
    decreases vals.len(),
{
    let m = p as int;
    let s = singles(vals, p);
    let v = vals.last();
    lemma_mod_bound(v, m);
    if vals.len() == 1 {
        assert(s.drop_last() =~= Seq::<ModSum>::empty());
        assert(vals.drop_last() =~= Seq::<int>::empty());
        assert(total(vals) == v);
    } else {
        let rest = vals.drop_last();
        assert(s.drop_last() =~= singles(rest, p));
        lemma_fold_singles(rest, p);
        lemma_mod_bound(total(rest), m);
        lemma_add_mod_noop(total(rest), v, m);
        lemma_mod_bound(total(rest) % m + v % m, m);
        let a = (total(rest) % m) as u64;
        assert(a as int == total(rest) % m);
        assert(md(v, p) as int == v % m);
        assert(s.last() == ModSum::Has { sum: md(v, p), len: 1, modulus: p });
        assert(fold(s) == fold(s.drop_last()).spec_merge(s.last()));
        assert(fold(s.drop_last()) == ModSum::Has { sum: a, len: (vals.len() - 1) as u64, modulus: p });
        assert(md(a + md(v, p), p) == (total(vals) % m) as u64);
    }
}

/// The sum of `k * x + b` over the numbers `x` of `vals`.
proof fn lemma_total_affine(vals: Seq<int>, k: int, b: int)
    ensures
        total(Seq::new(vals.len(), |i: int| k * vals[i] + b)) == k * total(vals) + b * vals.len(),
    decreases vals.len(),
{
    let mapped = Seq::new(vals.len(), |i: int| k * vals[i] + b);
    if vals.len() > 0 {
        let rest = vals.drop_last();
        assert(mapped.drop_last() =~= Seq::new(rest.len(), |i: int| k * rest[i] + b));
        lemma_total_affine(rest, k, b);
        let t = total(rest);
        let v = vals.last();
        let n = rest.len() as int;
        assert(k * t + b * n + (k * v + b) == k * (t + v) + b * (n + 1)) by (nonlinear_arith);
    }
}

/// Applying `x -> k * x + b` modulo `p` to the folded sums of one value each gives the
/// folded sums of the mapped values.
pub proof fn lemma_apply_singles(k: u64, b: u64, vals: Seq<int>, p: u64)
    requires
        p > 0,
        0 < vals.len() <= u64::MAX,
    ensures
        (Linear::Affine { mul: k, add: b, modulus: p }).spec_apply(fold(singles(vals, p)))
            == fold(singles(Seq::new(vals.len(), |i: int| k * vals[i] + b), p)),
{
    let m = p as int;
    let mapped = Seq::new(vals.len(), |i: int| k * vals[i] + b);
    let n = vals.len() as int;
    lemma_fold_singles(vals, p);
    lemma_fold_singles(mapped, p);
    lemma_total_affine(vals, k as int, b as int);
    let t = total(vals);
    lemma_mod_bound(t, m);
    lemma_mul_mod_noop_right(k as int, t, m);
    lemma_add_mod_noop(k * (t % m), b * n, m);
    lemma_add_mod_noop(k * t, b * n, m);
}

/// A command on a sequence of numbers modulo one modulus, with positions counted from one
/// and both ends of a range included.
#[derive(Clone, Copy, PartialEq, Eq, Debug)]
pub enum AffineCommand {
    /// Multiply each number from `first` to `last` by `factor`.
    Multiply { first: usize, last: usize, factor: u64 },
    /// Add `term` to each number from `first` to `last`.
    Add { first: usize, last: usize, term: u64 },
    /// The sum of the numbers from `first` to `last`.
    Sum { first: usize, last: usize },
}

/// Carries out `command` on the sequence that `tree` holds, with maps of `modulus`: an
/// update gives the updated tree and no answer, a sum gives the tree unchanged and the fold
/// of the range.
pub fn affine_step(tree: rc_seg_tree::SegTree<ModSum, Linear>, command: AffineCommand, modulus: u64) -> (r: (
    rc_seg_tree::SegTree<ModSum, Linear>,
    Option<ModSum>,
))
    requires
        tree.wf(),
        match command {
            AffineCommand::Multiply { first, last, .. } => first >= 1 && last >= 1,
            AffineCommand::Add { first, last, .. } => first >= 1 && last >= 1,
            AffineCommand::Sum { first, .. } => first >= 1,
        },
    ensures
        r.0.wf(),
        r.0.seq().len() == tree.seq().len(),
        match command {
            AffineCommand::Multiply { first, last, factor } => {
                &&& r.0.seq() == rc_seg_tree::apply_range(
                    tree.seq(),
                    first - 1,
                    last as int,
                    Linear::Affine { mul: factor, add: 0, modulus },
                )
                &&& r.1 is None
            },
            AffineCommand::Add { first, last, term } => {
                &&& r.0.seq() == rc_seg_tree::apply_range(
                    tree.seq(),
                    first - 1,
                    last as int,
                    Linear::Affine { mul: 1, add: term, modulus },
                )
                &&& r.1 is None
            },
            AffineCommand::Sum { first, last } => {
                &&& r.0 == tree
                &&& r.1 == Some(range_fold(tree.seq(), first - 1, last as int))
            },
        },
{
    proof {
        tree.lemma_seq_len();
    }
    match command {
        AffineCommand::Multiply { first, last, factor } => {
            let updated = tree.apply(first - 1..last - 1, Linear::new(factor, 0, modulus));
            proof {
                updated.lemma_seq_len();
            }
            (updated, None)
        },
        AffineCommand::Add { first, last, term } => {
            let updated = tree.apply(first - 1..last - 1, Linear::new(1, term, modulus));
            proof {
                updated.lemma_seq_len();
            }
            (updated, None)
        },
        AffineCommand::Sum { first, last } => {
            let sum = tree.query(first - 1..last);
            (tree, Some(sum))
        },
    }
}

} // verus!
