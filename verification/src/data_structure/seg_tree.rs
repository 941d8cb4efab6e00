pub mod affine;
pub mod colors;
pub mod persist;
pub mod tags;
pub mod tree;

use crate::traits::monoid::{
    fold, is_identity, lemma_empty_is_identity, lemma_fold_concat, lemma_fold_map,
    lemma_fold_singleton, range_fold, Monoid,
};
use crate::traits::semigroup::Semigroup;
use std::ops::Range;
use std::rc::Rc;
use vstd::prelude::*;

verus! {

/// A lazy modifier of segment tree values:
/// `m1.apply(a.merge(b)) == m1.apply(a).merge(m1.apply(b))`.
///
/// Lazy propagation rests on three more laws: a modifier keeps an identity value,
/// `m1.merge(m2)` applies `m2` first and then `m1`, and an identity modifier changes nothing.
pub trait Applier<V: Semigroup>: Semigroup {
    spec fn spec_apply(&self, to: V) -> V;

    proof fn lemma_apply_merge(&self, a: V, b: V)
        ensures
            self.spec_apply(a.spec_merge(b)) == self.spec_apply(a).spec_merge(self.spec_apply(b)),
    ;

    proof fn lemma_apply_identity(&self, a: V)
        requires
            is_identity(a),
        ensures
            self.spec_apply(a) == a,
    ;

    proof fn lemma_apply_compose(m1: Self, m2: Self, v: V)
        ensures
            m1.spec_merge(m2).spec_apply(v) == m1.spec_apply(m2.spec_apply(v)),
    ;

    proof fn lemma_identity_applies_nothing(&self, v: V)
        requires
            is_identity(*self),
        ensures
            self.spec_apply(v) == v,
    ;

    fn apply(&self, to: V) -> (r: V)
        ensures
            r == self.spec_apply(to),
    ;
}

impl<A: Semigroup, B: Semigroup, MA: Applier<A>, MB: Applier<B>> Applier<(A, B)> for (MA, MB) {
    open spec fn spec_apply(&self, to: (A, B)) -> (A, B) {
        (self.0.spec_apply(to.0), self.1.spec_apply(to.1))
    }

    proof fn lemma_apply_merge(&self, a: (A, B), b: (A, B)) {
        self.0.lemma_apply_merge(a.0, b.0);
        self.1.lemma_apply_merge(a.1, b.1);
    }

    proof fn lemma_apply_identity(&self, a: (A, B)) {
        assert forall|x: A| #[trigger] a.0.spec_merge(x) == x && x.spec_merge(a.0) == x by {
            assert(a.spec_merge((x, a.1)) == (x, a.1));
            assert((x, a.1).spec_merge(a) == (x, a.1));
        }
        assert forall|x: B| #[trigger] a.1.spec_merge(x) == x && x.spec_merge(a.1) == x by {
            assert(a.spec_merge((a.0, x)) == (a.0, x));
            assert((a.0, x).spec_merge(a) == (a.0, x));
        }
        self.0.lemma_apply_identity(a.0);
        self.1.lemma_apply_identity(a.1);
    }

    proof fn lemma_apply_compose(m1: Self, m2: Self, v: (A, B)) {
        MA::lemma_apply_compose(m1.0, m2.0, v.0);
        MB::lemma_apply_compose(m1.1, m2.1, v.1);
    }

    proof fn lemma_identity_applies_nothing(&self, v: (A, B)) {
        let m = *self;
        assert forall|x: MA| #[trigger] m.0.spec_merge(x) == x && x.spec_merge(m.0) == x by {
            assert(m.spec_merge((x, m.1)) == (x, m.1));
            assert((x, m.1).spec_merge(m) == (x, m.1));
        }
        assert forall|x: MB| #[trigger] m.1.spec_merge(x) == x && x.spec_merge(m.1) == x by {
            assert(m.spec_merge((m.0, x)) == (m.0, x));
            assert((m.0, x).spec_merge(m) == (m.0, x));
        }
        self.0.lemma_identity_applies_nothing(v.0);
        self.1.lemma_identity_applies_nothing(v.1);
    }

    fn apply(&self, to: (A, B)) -> (r: (A, B)) {
        let (a, b) = to;
        (self.0.apply(a), self.1.apply(b))
    }
}

impl<A: Semigroup, M: Applier<A>> Applier<A> for Option<M> {
    open spec fn spec_apply(&self, to: A) -> A {
        match self {
            None => to,
            Some(f) => f.spec_apply(to),
        }
    }

    proof fn lemma_apply_merge(&self, a: A, b: A) {
        if let Some(f) = self {
            f.lemma_apply_merge(a, b);
        }
    }

    proof fn lemma_apply_identity(&self, a: A) {
        if let Some(f) = self {
            f.lemma_apply_identity(a);
        }
    }

    proof fn lemma_apply_compose(m1: Self, m2: Self, v: A) {
        if m1.is_some() && m2.is_some() {
            M::lemma_apply_compose(m1.unwrap(), m2.unwrap(), v);
        }
    }

    proof fn lemma_identity_applies_nothing(&self, v: A) {
        if self.is_some() {
            assert(self.spec_merge(None) == None::<M>);
        }
    }

    fn apply(&self, to: A) -> (r: A) {
        match self {
            None => to,
            Some(f) => f.apply(to),
        }
    }
}

/// `s` with `m` applied to each element.
pub open spec fn apply_each<V: Semigroup, M: Applier<V>>(s: Seq<V>, m: M) -> Seq<V> {
    Seq::new(s.len(), |i: int| m.spec_apply(s[i]))
}

/// `s` with `m` applied to each element whose index lies in `start..end`.
pub open spec fn apply_range<V: Semigroup, M: Applier<V>>(s: Seq<V>, start: int, end: int, m: M) -> Seq<V> {
    Seq::new(s.len(), |i: int| if start <= i < end { m.spec_apply(s[i]) } else { s[i] })
}

/// Applying a modifier to a fold folds the modified elements.
proof fn lemma_fold_apply_each<V: Monoid, M: Applier<V>>(m: M, s: Seq<V>)
    ensures
        m.spec_apply(fold(s)) == fold(apply_each(s, m)),
{
    let f = |x: V| m.spec_apply(x);
    assert forall|a: V, b: V| #[trigger] f(a.spec_merge(b)) == f(a).spec_merge(f(b)) by {
        m.lemma_apply_merge(a, b);
    }
    lemma_empty_is_identity::<V>();
    m.lemma_apply_identity(V::spec_empty());
    lemma_fold_map(s, f);
    assert(s.map_values(f) =~= apply_each(s, m));
}

/// An identity modifier leaves a sequence unchanged.
proof fn lemma_apply_each_identity<V: Semigroup, M: Applier<V>>(m: M, s: Seq<V>)
    requires
        is_identity(m),
    ensures
        apply_each(s, m) == s,
{
    assert forall|i: int| 0 <= i < s.len() implies #[trigger] apply_each(s, m)[i] == s[i] by {
        m.lemma_identity_applies_nothing(s[i]);
    }
    assert(apply_each(s, m) =~= s);
}

/// Copies an `Rc`; the copy points to the same value.
///
/// Calls `Rc::clone`, which makes another pointer to the same allocation; Verus reads an `Rc`
/// as the value it points to, so the copy equals what it was copied from.
#[verifier::external_body]
pub(crate) fn clone_rc<T>(rc: &Rc<T>) -> (r: Rc<T>)
    ensures
        r == *rc,
{
    Rc::clone(rc)
}

/// A persistent segment tree with lazy modifiers.
///
/// A `Branch` of `size` elements holds `size / 2` of them on the left. Its `modifier` is
/// pending for the whole branch, and its `value` already includes it.
pub enum SegTree<V, M> {
    Empty,
    Unit(V),
    Branch { size: usize, modifier: M, value: V, left: Rc<SegTree<V, M>>, right: Rc<SegTree<V, M>> },
}

impl<V, M> SegTree<V, M> {
    /// The number of elements.
    pub open spec fn spec_size(&self) -> nat {
        match self {
            SegTree::Empty => 0,
            SegTree::Unit(_) => 1,
            SegTree::Branch { size, .. } => *size as nat,
        }
    }

    pub fn size(&self) -> (r: usize)
        ensures
            r == self.spec_size(),
    {
        match self {
            Self::Empty => 0,
            Self::Unit(_) => 1,
            Self::Branch { size, .. } => *size,
        }
    }
}

impl<V: Semigroup, M: Applier<V>> SegTree<V, M> {
    /// The elements, with all pending modifiers applied.
    pub open spec fn seq(&self) -> Seq<V>
        decreases self,
    {
        match self {
            SegTree::Empty => Seq::empty(),
            SegTree::Unit(v) => seq![*v],
            SegTree::Branch { modifier, left, right, .. } => apply_each((*left).seq() + (*right).seq(), *modifier),
        }
    }
}

impl<V: Monoid, M: Applier<V>> SegTree<V, M> {
    /// Well-formedness: sizes split as `size / 2` on the left, and each branch value is the
    /// fold of the branch's elements.
    pub open spec fn wf(&self) -> bool
        decreases self,
    {
        match self {
            SegTree::Empty => true,
            SegTree::Unit(_) => true,
            SegTree::Branch { size, modifier, value, left, right } => {
                &&& (*left).wf()
                &&& (*right).wf()
                &&& *size >= 2
                &&& (*left).spec_size() == *size as nat / 2
                &&& (*right).spec_size() == *size as nat - *size as nat / 2
                &&& *value == fold(self.seq())
            }
        }
    }

    /// The number of elements is the size.
    pub proof fn lemma_seq_len(&self)
        requires
            self.wf(),
        ensures
            self.seq().len() == self.spec_size(),
        decreases self,
    {
        match self {
            SegTree::Branch { left, right, .. } => {
                (*left).lemma_seq_len();
                (*right).lemma_seq_len();
            }
            _ => {}
        }
    }

    fn all(&self) -> (r: V)
        requires
            self.wf(),
        ensures
            r == fold(self.seq()),
    {
        match self {
            Self::Empty => V::empty(),
            Self::Unit(v) => {
                proof {
                    lemma_fold_singleton(*v);
                }
                v.duplicate()
            }
            Self::Branch { value, .. } => value.duplicate(),
        }
    }

    fn apply_each(&self, m: M) -> (r: Self)
        requires
            self.wf(),
        ensures
            r.wf(),
            r.spec_size() == self.spec_size(),
            r.seq() == apply_each(self.seq(), m),
    {
        match self {
            Self::Empty => {
                assert(apply_each(self.seq(), m) =~= Seq::<V>::empty());
                Self::Empty
            }
            Self::Unit(v) => {
                let r = Self::Unit(m.apply(v.duplicate()));
                assert(r.seq() =~= apply_each(self.seq(), m));
                r
            }
            Self::Branch { size, modifier, value, left, right } => {
                let ghost inner = (*left).seq() + (*right).seq();
                let modifier2 = M::merge(m.duplicate(), modifier.duplicate());
                let r = Self::Branch {
                    size: *size,
                    value: m.apply(value.duplicate()),
                    modifier: modifier2,
                    left: clone_rc(left),
                    right: clone_rc(right),
                };
                proof {
                    assert forall|i: int| 0 <= i < inner.len() implies #[trigger] apply_each(inner, modifier2)[i]
                        == apply_each(self.seq(), m)[i] by {
                        M::lemma_apply_compose(m, *modifier, inner[i]);
                    }
                    assert(r.seq() =~= apply_each(self.seq(), m));
                    lemma_fold_apply_each(m, self.seq());
                }
                r
            }
        }
    }
}

impl<V: Monoid, M: Applier<V> + Monoid> SegTree<V, M> {
    fn build_inner<F: Fn(usize) -> V>(offset: usize, len: usize, init: &F) -> (r: Self)
        requires
            offset + len <= usize::MAX,
            forall|i: usize| offset <= i < offset + len ==> call_requires(*init, (i,)),
        ensures
            r.wf(),
            r.spec_size() == len,
            r.seq().len() == len,
            forall|i: int| 0 <= i < len ==> call_ensures(*init, ((offset + i) as usize,), #[trigger] r.seq()[i]),
        decreases len,
    {
        if len == 0 {
            Self::Empty
        } else if len == 1 {
            let v = init(offset);
            let r = Self::Unit(v);
            assert(r.seq()[0] == v);
            r
        } else {
            let mid = len / 2;
            let l = Self::build_inner(offset, mid, init);
            let r = Self::build_inner(offset + mid, len - mid, init);
            let lv = l.all();
            let rv = r.all();
            let value = lv.merge(rv);
            let ghost inner = l.seq() + r.seq();
            proof {
                lemma_fold_concat(l.seq(), r.seq());
                lemma_empty_is_identity::<M>();
                lemma_apply_each_identity(M::spec_empty(), inner);
            }
            let t = Self::Branch { size: len, modifier: M::empty(), value, left: Rc::new(l), right: Rc::new(r) };
            assert(t.seq() == inner);
            assert forall|i: int| 0 <= i < len implies call_ensures(*init, ((offset + i) as usize,), #[trigger] t.seq()[i]) by {
                if i < mid {
                    assert(t.seq()[i] == l.seq()[i]);
                } else {
                    assert(t.seq()[i] == r.seq()[i - mid]);
                    assert((offset + mid + (i - mid)) as usize == (offset + i) as usize);
                }
            }
            t
        }
    }

    /// Builds a tree of `len` elements; element `i` is `init(i)`.
    pub fn build<F: Fn(usize) -> V>(len: usize, init: F) -> (r: Self)
        requires
            forall|i: usize| i < len ==> call_requires(init, (i,)),
        ensures
            r.wf(),
            r.spec_size() == len,
            r.seq().len() == len,
            forall|i: int| 0 <= i < len ==> call_ensures(init, (i as usize,), #[trigger] r.seq()[i]),
    {
        let r = Self::build_inner(0, len, &init);
        assert forall|i: int| 0 <= i < len implies call_ensures(init, (i as usize,), #[trigger] r.seq()[i]) by {
            assert((0 + i) as usize == i as usize);
        }
        r
    }

    /// The fold of the elements in `range` (clamped to the size).
    pub fn query(&self, range: Range<usize>) -> (r: V)
        requires
            self.wf(),
        ensures
            r == range_fold(self.seq(), range.start as int, range.end as int),
        decreases self,
    {
        proof {
            self.lemma_seq_len();
        }
        match self {
            Self::Empty => V::empty(),
            Self::Unit(v) => {
                if range.start <= 0 && 0 < range.end {
                    proof {
                        assert(self.seq().subrange(0, 1) =~= seq![*v]);
                        lemma_fold_singleton(*v);
                    }
                    v.duplicate()
                } else {
                    V::empty()
                }
            }
            Self::Branch { size, modifier, value, left, right } => {
                if range.start <= 0 && *size <= range.end {
                    proof {
                        assert(self.seq().subrange(0, *size as int) =~= self.seq());
                    }
                    value.duplicate()
                } else {
                    let mid = *size / 2;
                    let ghost ls = (**left).seq();
                    let ghost rs = (**right).seq();
                    let ghost s = self.seq();
                    proof {
                        (**left).lemma_seq_len();
                        (**right).lemma_seq_len();
                    }
                    let inner = if range.end <= mid {
                        let q = left.query(range.start..range.end);
                        proof {
                            let lo = range.start as int;
                            let hi = range.end as int;
                            if lo < hi {
                                assert(apply_each(ls.subrange(lo, hi), *modifier) =~= s.subrange(lo, hi));
                                lemma_fold_apply_each(*modifier, ls.subrange(lo, hi));
                            }
                        }
                        q
                    } else if mid <= range.start {
                        let q = right.query(range.start - mid..range.end - mid);
                        proof {
                            let lo = range.start as int;
                            let hi = if range.end < *size { range.end as int } else { *size as int };
                            if lo < hi {
                                assert(apply_each(rs.subrange(lo - mid, hi - mid), *modifier) =~= s.subrange(lo, hi));
                                lemma_fold_apply_each(*modifier, rs.subrange(lo - mid, hi - mid));
                            }
                        }
                        q
                    } else {
                        let a = left.query(range.start..mid);
                        let b = right.query(0..range.end - mid);
                        proof {
                            let lo = range.start as int;
                            let hi = if range.end < *size { range.end as int } else { *size as int };
                            lemma_fold_concat(ls.subrange(lo, mid as int), rs.subrange(0, hi - mid));
                            let joined = ls.subrange(lo, mid as int) + rs.subrange(0, hi - mid);
                            assert(apply_each(joined, *modifier) =~= s.subrange(lo, hi));
                            lemma_fold_apply_each(*modifier, joined);
                        }
                        V::merge(a, b)
                    };
                    proof {
                        let lo = if range.start < *size { range.start as int } else { *size as int };
                        let hi = if range.end < *size { range.end as int } else { *size as int };
                        if !(lo < hi) {
                            lemma_empty_is_identity::<V>();
                            modifier.lemma_apply_identity(V::spec_empty());
                        }
                    }
                    modifier.apply(inner)
                }
            }
        }
    }

    /// Applies the modifier `m` to each element from `range.start` to `range.end`, both
    /// included (clamped to the size); the tree itself is left unchanged, and the result
    /// shares its untouched parts.
    pub fn apply(&self, range: Range<usize>, m: M) -> (r: Self)
        requires
            self.wf(),
        ensures
            r.wf(),
            r.spec_size() == self.spec_size(),
            r.seq() == apply_range(self.seq(), range.start as int, range.end + 1, m),
    {
        proof {
            self.lemma_seq_len();
        }
        if range.end < usize::MAX {
            self.apply_upto(range.start..range.end + 1, m)
        } else {
            let r = self.apply_upto(range.start..range.end, m);
            assert(apply_range(self.seq(), range.start as int, range.end as int, m)
                =~= apply_range(self.seq(), range.start as int, range.end + 1, m));
            r
        }
    }

    /// Applies `m` to each element at an index in `range`, the end excluded.
    fn apply_upto(&self, range: Range<usize>, m: M) -> (r: Self)
        requires
            self.wf(),
        ensures
            r.wf(),
            r.spec_size() == self.spec_size(),
            r.seq() == apply_range(self.seq(), range.start as int, range.end as int, m),
        decreases self.spec_size(),
    {
        proof {
            self.lemma_seq_len();
        }
        match self {
            Self::Empty => {
                assert(apply_range(self.seq(), range.start as int, range.end as int, m) =~= Seq::<V>::empty());
                Self::Empty
            }
            Self::Unit(v) => {
                if range.start <= 0 && 0 < range.end {
                    let r = Self::Unit(m.apply(v.duplicate()));
                    assert(r.seq() =~= apply_range(self.seq(), range.start as int, range.end as int, m));
                    r
                } else {
                    let r = Self::Unit(v.duplicate());
                    assert(r.seq() =~= apply_range(self.seq(), range.start as int, range.end as int, m));
                    r
                }
            }
            Self::Branch { size, modifier, value, left, right } => {
                if range.start <= 0 && *size <= range.end {
                    let r = self.apply_each(m);
                    assert(apply_each(self.seq(), m) =~= apply_range(self.seq(), range.start as int, range.end as int, m));
                    r
                } else {
                    let mid = *size / 2;
                    let ghost s = self.seq();
                    proof {
                        (**left).lemma_seq_len();
                        (**right).lemma_seq_len();
                    }
                    // push down, so that the top modifier is the newest one
                    let pushed_left = left.apply_each(modifier.duplicate());
                    let pushed_right = right.apply_each(modifier.duplicate());
                    let new_left = if range.start < mid {
                        let end = if range.end < mid { range.end } else { mid };
                        pushed_left.apply_upto(range.start..end, m.duplicate())
                    } else {
                        pushed_left
                    };
                    let new_right = if mid < range.end {
                        let start = if range.start > mid { range.start } else { mid };
                        pushed_right.apply_upto(start - mid..range.end - mid, m)
                    } else {
                        pushed_right
                    };
                    proof {
                        new_left.lemma_seq_len();
                        new_right.lemma_seq_len();
                    }
                    let lv = new_left.all();
                    let rv = new_right.all();
                    let value = V::merge(lv, rv);
                    let ghost inner = new_left.seq() + new_right.seq();
                    proof {
                        lemma_fold_concat(new_left.seq(), new_right.seq());
                                lemma_empty_is_identity::<M>();
                lemma_apply_each_identity(M::spec_empty(), inner);
                    }
                    let r = Self::Branch {
                        size: *size,
                        modifier: M::empty(),
                        value,
                        left: Rc::new(new_left),
                        right: Rc::new(new_right),
                    };
                    assert(r.seq() =~= apply_range(s, range.start as int, range.end as int, m));
                    r
                }
            }
        }
    }
}

} // verus!
