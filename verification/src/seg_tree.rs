use crate::data_structure::seg_tree::clone_rc;
use std::ops::Range;
use std::rc::Rc;
use vstd::prelude::*;

verus! {

/// A set with an associative binary operation that takes its right operand by reference:
/// `a.merge(&b.merge(&c)) == a.merge(&b).merge(&c)`.
pub trait Semigroup: Sized {
    spec fn spec_merge(self, other: Self) -> Self;

    proof fn lemma_merge_assoc(a: Self, b: Self, c: Self)
        ensures
            a.spec_merge(b.spec_merge(c)) == a.spec_merge(b).spec_merge(c),
    ;

    fn merge(self, other: &Self) -> (r: Self)
        ensures
            r == self.spec_merge(*other),
    ;

    /// A copy of the value that is equal to it.
    fn duplicate(&self) -> (r: Self)
        ensures
            r == *self,
    ;
}

impl<A: Semigroup, B: Semigroup> Semigroup for (A, B) {
    open spec fn spec_merge(self, other: Self) -> Self {
        (self.0.spec_merge(other.0), self.1.spec_merge(other.1))
    }

    proof fn lemma_merge_assoc(a: Self, b: Self, c: Self) {
        A::lemma_merge_assoc(a.0, b.0, c.0);
        B::lemma_merge_assoc(a.1, b.1, c.1);
    }

    fn merge(self, other: &Self) -> (r: Self) {
        (A::merge(self.0, &other.0), B::merge(self.1, &other.1))
    }

    fn duplicate(&self) -> (r: Self) {
        (self.0.duplicate(), self.1.duplicate())
    }
}

/// A semigroup with a two-sided identity: `empty().merge(&a) == a.merge(&empty()) == a`.
pub trait Monoid: Semigroup {
    spec fn spec_empty() -> Self;

    proof fn lemma_empty_identity(a: Self)
        ensures
            Self::spec_empty().spec_merge(a) == a,
            a.spec_merge(Self::spec_empty()) == a,
    ;

    fn empty() -> (r: Self)
        ensures
            r == Self::spec_empty(),
    ;
}

impl<A: Monoid, B: Monoid> Monoid for (A, B) {
    open spec fn spec_empty() -> Self {
        (A::spec_empty(), B::spec_empty())
    }

    proof fn lemma_empty_identity(a: Self) {
        A::lemma_empty_identity(a.0);
        B::lemma_empty_identity(a.1);
    }

    fn empty() -> (r: Self) {
        (A::empty(), B::empty())
    }
}

/// `a` is a two-sided identity of `merge`.
pub open spec fn is_identity<V: Semigroup>(a: V) -> bool {
    forall|x: V| #[trigger] a.spec_merge(x) == x && x.spec_merge(a) == x
}

/// A lazy modifier of segment tree values.
///
/// The laws that lazy propagation rests on: a modifier distributes over `merge`, keeps an
/// identity value, `m1.merge(&m2)` applies `m2` first and then `m1`, and an identity modifier
/// changes nothing.
pub trait Applier<V: Semigroup>: Semigroup {
    spec fn spec_apply(&self, to: V) -> V;

    proof fn lemma_apply_merge(&self, a: V, b: V)
        ensures
            self.spec_apply(a.spec_merge(b)) == self.spec_apply(a).spec_merge(self.spec_apply(b)),
    ;

    proof fn lemma_apply_identity(&self, a: V)
        requires
            is_identity(a),
        ensures
            self.spec_apply(a) == a,
    ;

    proof fn lemma_apply_compose(m1: Self, m2: Self, v: V)
        ensures
            m1.spec_merge(m2).spec_apply(v) == m1.spec_apply(m2.spec_apply(v)),
    ;

    proof fn lemma_identity_applies_nothing(&self, v: V)
        requires
            is_identity(*self),
        ensures
            self.spec_apply(v) == v,
    ;

    fn apply(&self, to: V) -> (r: V)
        ensures
            r == self.spec_apply(to),
    ;
}

/// The merge of all values of `s`, from left to right; `empty` for an empty sequence.
pub open spec fn fold<V: Monoid>(s: Seq<V>) -> V
    decreases s.len(),
{
    if s.len() == 0 {
        V::spec_empty()
    } else {
        fold(s.drop_last()).spec_merge(s.last())
    }
}

/// The fold of the part of `s` that lies in `start..end`, both clamped to the length of `s`.
pub open spec fn range_fold<V: Monoid>(s: Seq<V>, start: int, end: int) -> V {
    let lo = if start < s.len() { start } else { s.len() as int };
    let hi = if end < s.len() { end } else { s.len() as int };
    if lo < hi {
        fold(s.subrange(lo, hi))
    } else {
        V::spec_empty()
    }
}

/// `s` with `m` applied to each element whose index lies in `start..end`.
pub open spec fn apply_range<V: Semigroup, M: Applier<V>>(s: Seq<V>, start: int, end: int, m: M) -> Seq<V> {
    Seq::new(s.len(), |i: int| if start <= i < end { m.spec_apply(s[i]) } else { s[i] })
}

/// `s` with `m` applied to each element.
pub open spec fn apply_all<V: Semigroup, M: Applier<V>>(s: Seq<V>, m: M) -> Seq<V> {
    Seq::new(s.len(), |i: int| m.spec_apply(s[i]))
}

proof fn lemma_empty_is_identity<V: Monoid>()
    ensures
        is_identity(V::spec_empty()),
{
    assert forall|x: V| #[trigger] V::spec_empty().spec_merge(x) == x && x.spec_merge(V::spec_empty()) == x by {
        V::lemma_empty_identity(x);
    }
}

proof fn lemma_fold_concat<V: Monoid>(a: Seq<V>, b: Seq<V>)
    ensures
        fold(a + b) == fold(a).spec_merge(fold(b)),
    decreases b.len(),
{
    if b.len() == 0 {
        assert(a + b =~= a);
        V::lemma_empty_identity(fold(a));
    } else {
        assert((a + b).drop_last() =~= a + b.drop_last());
        lemma_fold_concat(a, b.drop_last());
        V::lemma_merge_assoc(fold(a), fold(b.drop_last()), b.last());
    }
}

proof fn lemma_fold_singleton<V: Monoid>(v: V)
    ensures
        fold(seq![v]) == v,
{
    assert(seq![v].drop_last() =~= Seq::<V>::empty());
    assert(fold(Seq::<V>::empty()) == V::spec_empty());
    V::lemma_empty_identity(v);
}

/// Applying a modifier to a fold folds the modified elements.
proof fn lemma_fold_apply_all<V: Monoid, M: Applier<V>>(m: M, s: Seq<V>)
    ensures
        m.spec_apply(fold(s)) == fold(apply_all(s, m)),
    decreases s.len(),
{
    if s.len() == 0 {
        lemma_empty_is_identity::<V>();
        m.lemma_apply_identity(V::spec_empty());
    } else {
        assert(apply_all(s, m).drop_last() =~= apply_all(s.drop_last(), m));
        lemma_fold_apply_all(m, s.drop_last());
        m.lemma_apply_merge(fold(s.drop_last()), s.last());
    }
}

/// An identity modifier leaves a sequence unchanged.
proof fn lemma_apply_all_identity<V: Semigroup, M: Applier<V>>(m: M, s: Seq<V>)
    requires
        is_identity(m),
    ensures
        apply_all(s, m) == s,
{
    assert forall|i: int| 0 <= i < s.len() implies #[trigger] apply_all(s, m)[i] == s[i] by {
        m.lemma_identity_applies_nothing(s[i]);
    }
    assert(apply_all(s, m) =~= s);
}

proof fn lemma_empty_modifier<V: Semigroup, M: Applier<V> + Monoid>()
    ensures
        is_identity(M::spec_empty()),
{
    assert forall|x: M| #[trigger] M::spec_empty().spec_merge(x) == x && x.spec_merge(M::spec_empty()) == x by {
        M::lemma_empty_identity(x);
    }
}

/// A persistent segment tree with lazy modifiers.
///
/// A `Branch` of `size` elements holds `size / 2` of them on the left. Its `modifier` is
/// pending for the whole branch, and its `value` already includes it.
pub enum SegTree<V, M> {
    Empty,
    Unit(V),
    Branch { size: usize, modifier: M, value: V, left: Rc<SegTree<V, M>>, right: Rc<SegTree<V, M>> },
}

impl<V, M> SegTree<V, M> {
    /// The number of elements.
    pub open spec fn spec_size(&self) -> nat {
        match self {
            SegTree::Empty => 0,
            SegTree::Unit(_) => 1,
            SegTree::Branch { size, .. } => *size as nat,
        }
    }

    pub fn size(&self) -> (r: usize)
        ensures
            r == self.spec_size(),
    {
        match self {
            Self::Empty => 0,
            Self::Unit(_) => 1,
            Self::Branch { size, .. } => *size,
        }
    }
}

impl<V: Semigroup, M: Applier<V>> SegTree<V, M> {
    /// The elements, with all pending modifiers applied.
    pub open spec fn seq(&self) -> Seq<V>
        decreases self,
    {
        match self {
            SegTree::Empty => Seq::empty(),
            SegTree::Unit(v) => seq![*v],
            SegTree::Branch { modifier, left, right, .. } => apply_all((*left).seq() + (*right).seq(), *modifier),
        }
    }
}

impl<V: Monoid, M: Applier<V>> SegTree<V, M> {
    /// Well-formedness: sizes split as `size / 2` on the left, and each branch value is the
    /// fold of the branch's elements.
    pub open spec fn wf(&self) -> bool
        decreases self,
    {
        match self {
            SegTree::Empty => true,
            SegTree::Unit(_) => true,
            SegTree::Branch { size, modifier, value, left, right } => {
                &&& (*left).wf()
                &&& (*right).wf()
                &&& *size >= 2
                &&& (*left).spec_size() == *size as nat / 2
                &&& (*right).spec_size() == *size as nat - *size as nat / 2
                &&& *value == fold(self.seq())
            }
        }
    }

    /// The number of elements is the size.
    pub proof fn lemma_seq_len(&self)
        requires
            self.wf(),
        ensures
            self.seq().len() == self.spec_size(),
        decreases self,
    {
        match self {
            SegTree::Branch { left, right, .. } => {
                (*left).lemma_seq_len();
                (*right).lemma_seq_len();
            }
            _ => {}
        }
    }

    fn all(&self) -> (r: V)
        requires
            self.wf(),
        ensures
            r == fold(self.seq()),
    {
        match self {
            Self::Empty => V::empty(),
            Self::Unit(v) => {
                proof {
                    lemma_fold_singleton(*v);
                }
                v.duplicate()
            }
            Self::Branch { value, .. } => value.duplicate(),
        }
    }

    fn apply_all(&self, m: M) -> (r: Self)
        requires
            self.wf(),
        ensures
            r.wf(),
            r.spec_size() == self.spec_size(),
            r.seq() == apply_all(self.seq(), m),
    {
        match self {
            Self::Empty => {
                assert(apply_all(self.seq(), m) =~= Seq::<V>::empty());
                Self::Empty
            }
            Self::Unit(v) => {
                let r = Self::Unit(m.apply(v.duplicate()));
                assert(r.seq() =~= apply_all(self.seq(), m));
                r
            }
            Self::Branch { size, modifier, value, left, right } => {
                let ghost inner = (*left).seq() + (*right).seq();
                let modifier2 = m.duplicate().merge(modifier);
                let r = Self::Branch {
                    size: *size,
                    value: m.apply(value.duplicate()),
                    modifier: modifier2,
                    left: clone_rc(left),
                    right: clone_rc(right),
                };
                proof {
                    assert forall|i: int| 0 <= i < inner.len() implies #[trigger] apply_all(inner, modifier2)[i]
                        == apply_all(self.seq(), m)[i] by {
                        M::lemma_apply_compose(m, *modifier, inner[i]);
                    }
                    assert(r.seq() =~= apply_all(self.seq(), m));
                    lemma_fold_apply_all(m, self.seq());
                }
                r
            }
        }
    }
}

impl<V: Monoid, M: Applier<V> + Monoid> SegTree<V, M> {
    fn build_inner<F: Fn(usize) -> V>(offset: usize, len: usize, init: &F) -> (r: Self)
        requires
            offset + len <= usize::MAX,
            forall|i: usize| offset <= i < offset + len ==> call_requires(*init, (i,)),
        ensures
            r.wf(),
            r.spec_size() == len,
            r.seq().len() == len,
            forall|i: int| 0 <= i < len ==> call_ensures(*init, ((offset + i) as usize,), #[trigger] r.seq()[i]),
        decreases len,
    {
        if len == 0 {
            Self::Empty
        } else if len == 1 {
            let v = init(offset);
            let r = Self::Unit(v);
            assert(r.seq()[0] == v);
            r
        } else {
            let mid = len / 2;
            let l = Self::build_inner(offset, mid, init);
            let r = Self::build_inner(offset + mid, len - mid, init);
            let lv = l.all();
            let rv = r.all();
            let value = lv.merge(&rv);
            let ghost inner = l.seq() + r.seq();
            proof {
                lemma_fold_concat(l.seq(), r.seq());
                lemma_empty_modifier::<V, M>();
                lemma_apply_all_identity(M::spec_empty(), inner);
            }
            let t = Self::Branch { size: len, modifier: M::empty(), value, left: Rc::new(l), right: Rc::new(r) };
            assert(t.seq() == inner);
            assert forall|i: int| 0 <= i < len implies call_ensures(*init, ((offset + i) as usize,), #[trigger] t.seq()[i]) by {
                if i < mid {
                    assert(t.seq()[i] == l.seq()[i]);
                } else {
                    assert(t.seq()[i] == r.seq()[i - mid]);
                    assert((offset + mid + (i - mid)) as usize == (offset + i) as usize);
                }
            }
            t
        }
    }

    /// Builds a tree of `len` elements; element `i` is `init(i)`.
    pub fn build<F: Fn(usize) -> V>(len: usize, init: F) -> (r: Self)
        requires
            forall|i: usize| i < len ==> call_requires(init, (i,)),
        ensures
            r.wf(),
            r.spec_size() == len,
            r.seq().len() == len,
            forall|i: int| 0 <= i < len ==> call_ensures(init, (i as usize,), #[trigger] r.seq()[i]),
    {
        let r = Self::build_inner(0, len, &init);
        assert forall|i: int| 0 <= i < len implies call_ensures(init, (i as usize,), #[trigger] r.seq()[i]) by {
            assert((0 + i) as usize == i as usize);
        }
        r
    }

    /// The fold of the elements in `range` (clamped to the size).
    pub fn query(&self, range: Range<usize>) -> (r: V)
        requires
            self.wf(),
        ensures
            r == range_fold(self.seq(), range.start as int, range.end as int),
        decreases self,
    {
        proof {
            self.lemma_seq_len();
        }
        match self {
            Self::Empty => V::empty(),
            Self::Unit(v) => {
                if range.start <= 0 && 0 < range.end {
                    proof {
                        assert(self.seq().subrange(0, 1) =~= seq![*v]);
                        lemma_fold_singleton(*v);
                    }
                    v.duplicate()
                } else {
                    V::empty()
                }
            }
            Self::Branch { size, modifier, value, left, right } => {
                if range.start <= 0 && *size <= range.end {
                    proof {
                        assert(self.seq().subrange(0, *size as int) =~= self.seq());
                    }
                    value.duplicate()
                } else {
                    let mid = *size / 2;
                    let ghost ls = (**left).seq();
                    let ghost rs = (**right).seq();
                    let ghost s = self.seq();
                    proof {
                        (**left).lemma_seq_len();
                        (**right).lemma_seq_len();
                    }
                    let inner = if range.end <= mid {
                        let q = left.query(range.start..range.end);
                        proof {
                            let lo = range.start as int;
                            let hi = range.end as int;
                            if lo < hi {
                                assert(apply_all(ls.subrange(lo, hi), *modifier) =~= s.subrange(lo, hi));
                                lemma_fold_apply_all(*modifier, ls.subrange(lo, hi));
                            }
                        }
                        q
                    } else if mid <= range.start {
                        let q = right.query(range.start - mid..range.end - mid);
                        proof {
                            let lo = range.start as int;
                            let hi = if range.end < *size { range.end as int } else { *size as int };
                            if lo < hi {
                                assert(apply_all(rs.subrange(lo - mid, hi - mid), *modifier) =~= s.subrange(lo, hi));
                                lemma_fold_apply_all(*modifier, rs.subrange(lo - mid, hi - mid));
                            }
                        }
                        q
                    } else {
                        let a = left.query(range.start..mid);
                        let b = right.query(0..range.end - mid);
                        proof {
                            let lo = range.start as int;
                            let hi = if range.end < *size { range.end as int } else { *size as int };
                            lemma_fold_concat(ls.subrange(lo, mid as int), rs.subrange(0, hi - mid));
                            let joined = ls.subrange(lo, mid as int) + rs.subrange(0, hi - mid);
                            assert(apply_all(joined, *modifier) =~= s.subrange(lo, hi));
                            lemma_fold_apply_all(*modifier, joined);
                        }
                        V::merge(a, &b)
                    };
                    proof {
                        let lo = if range.start < *size { range.start as int } else { *size as int };
                        let hi = if range.end < *size { range.end as int } else { *size as int };
                        if !(lo < hi) {
                            lemma_empty_is_identity::<V>();
                            modifier.lemma_apply_identity(V::spec_empty());
                        }
                    }
                    modifier.apply(inner)
                }
            }
        }
    }

    /// Applies the modifier `m` to each element from `range.start` to `range.end`, both
    /// included (clamped to the size); the tree itself is left unchanged, and the result
    /// shares its untouched parts.
    pub fn apply(&self, range: Range<usize>, m: M) -> (r: Self)
        requires
            self.wf(),
        ensures
            r.wf(),
            r.spec_size() == self.spec_size(),
            r.seq() == apply_range(self.seq(), range.start as int, range.end + 1, m),
    {
        proof {
            self.lemma_seq_len();
        }
        if range.end < usize::MAX {
            self.apply_upto(range.start..range.end + 1, m)
        } else {
            let r = self.apply_upto(range.start..range.end, m);
            assert(apply_range(self.seq(), range.start as int, range.end as int, m)
                =~= apply_range(self.seq(), range.start as int, range.end + 1, m));
            r
        }
    }

    /// Applies `m` to each element at an index in `range`, the end excluded.
    fn apply_upto(&self, range: Range<usize>, m: M) -> (r: Self)
        requires
            self.wf(),
        ensures
            r.wf(),
            r.spec_size() == self.spec_size(),
            r.seq() == apply_range(self.seq(), range.start as int, range.end as int, m),
        decreases self.spec_size(),
    {
        proof {
            self.lemma_seq_len();
        }
        match self {
            Self::Empty => {
                assert(apply_range(self.seq(), range.start as int, range.end as int, m) =~= Seq::<V>::empty());
                Self::Empty
            }
            Self::Unit(v) => {
                if range.start <= 0 && 0 < range.end {
                    let r = Self::Unit(m.apply(v.duplicate()));
                    assert(r.seq() =~= apply_range(self.seq(), range.start as int, range.end as int, m));
                    r
                } else {
                    let r = Self::Unit(v.duplicate());
                    assert(r.seq() =~= apply_range(self.seq(), range.start as int, range.end as int, m));
                    r
                }
            }
            Self::Branch { size, modifier, value, left, right } => {
                if range.start <= 0 && *size <= range.end {
                    let r = self.apply_all(m);
                    assert(apply_all(self.seq(), m) =~= apply_range(self.seq(), range.start as int, range.end as int, m));
                    r
                } else {
                    let mid = *size / 2;
                    let ghost s = self.seq();
                    proof {
                        (**left).lemma_seq_len();
                        (**right).lemma_seq_len();
                    }
                    // push down, so that the top modifier is the newest one
                    let pushed_left = left.apply_all(modifier.duplicate());
                    let pushed_right = right.apply_all(modifier.duplicate());
                    let new_left = if range.start < mid {
                        let end = if range.end < mid { range.end } else { mid };
                        pushed_left.apply_upto(range.start..end, m.duplicate())
                    } else {
                        pushed_left
                    };
                    let new_right = if mid < range.end {
                        let start = if range.start > mid { range.start } else { mid };
                        pushed_right.apply_upto(start - mid..range.end - mid, m)
                    } else {
                        pushed_right
                    };
                    proof {
                        new_left.lemma_seq_len();
                        new_right.lemma_seq_len();
                    }
                    let lv = new_left.all();
                    let rv = new_right.all();
                    let value = V::merge(lv, &rv);
                    let ghost inner = new_left.seq() + new_right.seq();
                    proof {
                        lemma_fold_concat(new_left.seq(), new_right.seq());
                        lemma_empty_modifier::<V, M>();
                        lemma_apply_all_identity(M::spec_empty(), inner);
                    }
                    let r = Self::Branch {
                        size: *size,
                        modifier: M::empty(),
                        value,
                        left: Rc::new(new_left),
                        right: Rc::new(new_right),
                    };
                    assert(r.seq() =~= apply_range(s, range.start as int, range.end as int, m));
                    r
                }
            }
        }
    }
}

} // verus!
