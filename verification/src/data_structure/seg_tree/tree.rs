use crate::data_structure::ref_store::{
    store_extends, ArenaRef, ArenaStoreFactory, Duplicate, LayeredArenaStoreFactory, LayeredRef,
    LayeredStore, RcStoreFactory, RefMapper, RefStore, RefStoreFactory, RefStoreMut, StoreRef,
};
use crate::traits::monoid::{
    fold, is_identity, lemma_empty_is_identity, lemma_fold_all_empty, lemma_fold_concat,
    lemma_fold_fold1, lemma_fold_map, lemma_fold_singleton, lemma_fold_split, map_range,
    range_fold, Monoid,
};
use crate::traits::semigroup::{fold1, Semigroup};
use std::marker::PhantomData;
use std::ops::Range;
use vstd::prelude::*;

verus! {

pub const SEG_TREE_CACHE_LINE_BYTES: usize = 64;

pub const DEFAULT_SEG_LEAF_BLOCK_CAPACITY: usize = 16;

/// A lazy modifier of segment tree values, applied in place.
///
/// Applying after merging equals merging after applying. Lazy propagation also rests on three
/// more laws: a modifier keeps an identity value, `m1.merge(m2)` applies `m2` first and then
/// `m1`, and an identity modifier changes nothing.
pub trait Applier<V: Semigroup>: Semigroup {
    spec fn spec_apply(&self, to: V) -> V;

    proof fn lemma_apply_merge(&self, a: V, b: V)
        ensures
            self.spec_apply(a.spec_merge(b)) == self.spec_apply(a).spec_merge(self.spec_apply(b)),
    ;

    proof fn lemma_apply_identity(&self, a: V)
        requires
            crate::traits::monoid::is_identity(a),
        ensures
            self.spec_apply(a) == a,
    ;

    proof fn lemma_apply_compose(m1: Self, m2: Self, v: V)
        ensures
            m1.spec_merge(m2).spec_apply(v) == m1.spec_apply(m2.spec_apply(v)),
    ;

    proof fn lemma_identity_applies_nothing(&self, v: V)
        requires
            crate::traits::monoid::is_identity(*self),
        ensures
            self.spec_apply(v) == v,
    ;

    fn apply(&self, to: &mut V)
        ensures
            *final(to) == self.spec_apply(*old(to)),
    ;

    /// The modified copy of a value.
    fn applied(&self, to: V) -> (r: V)
        ensures
            r == self.spec_apply(to),
    {
        let mut to = to;
        self.apply(&mut to);
        to
    }

    /// Whether this modifier may change some element of a range whose merged value is
    /// `value`. `false` promises that it changes none of them; the default never prunes.
    fn affects(&self, value: &V) -> (r: bool)
        ensures
            !r ==> forall|s: Seq<V>|
                s.len() > 0 && #[trigger] fold1(s) == *value ==> forall|i: int|
                    0 <= i < s.len() ==> self.spec_apply(#[trigger] s[i]) == s[i],
    {
        true
    }

    /// Applies the modifier to each element of `to`; a place for batch optimisations.
    fn apply_slice(&self, to: &mut [V])
        ensures
            final(to)@ == old(to)@.map_values(|v: V| self.spec_apply(v)),
    {
        let mut i: usize = 0;
        while i < to.len()
            invariant
                i <= to@.len(),
                to@.len() == old(to)@.len(),
                forall|j: int| 0 <= j < i ==> to@[j] == self.spec_apply(old(to)@[j]),
                forall|j: int| i <= j < to@.len() ==> to@[j] == old(to)@[j],
            decreases to@.len() - i,
        {
            let value = self.applied(to[i].duplicate());
            to[i] = value;
            i = i + 1;
        }
        assert(to@ =~= old(to)@.map_values(|v: V| self.spec_apply(v)));
    }
}

/// `s` with `m` applied to each element.
pub open spec fn apply_each<V: Semigroup, M: Applier<V>>(s: Seq<V>, m: M) -> Seq<V> {
    Seq::new(s.len(), |i: int| m.spec_apply(s[i]))
}

/// `s` with `m` applied to each element whose index lies in `start..end`.
pub open spec fn apply_range<V: Semigroup, M: Applier<V>>(s: Seq<V>, start: int, end: int, m: M) -> Seq<V> {
    Seq::new(s.len(), |i: int| if start <= i < end { m.spec_apply(s[i]) } else { s[i] })
}

/// Applying a modifier to a fold folds the modified elements.
pub proof fn lemma_fold_apply<V: Monoid, M: Applier<V>>(m: M, s: Seq<V>)
    ensures
        m.spec_apply(fold(s)) == fold(apply_each(s, m)),
{
    let f = |v: V| m.spec_apply(v);
    assert forall|a: V, b: V| #[trigger] f(a.spec_merge(b)) == f(a).spec_merge(f(b)) by {
        m.lemma_apply_merge(a, b);
    }
    lemma_empty_is_identity::<V>();
    m.lemma_apply_identity(V::spec_empty());
    lemma_fold_map(s, f);
    assert(s.map_values(f) =~= apply_each(s, m));
}

/// An identity modifier changes no element.
pub proof fn lemma_identity_map<V: Monoid, M: Applier<V>>(m: M, s: Seq<V>)
    requires
        is_identity(m),
    ensures
        apply_each(s, m) == s,
{
    assert forall|i: int| 0 <= i < s.len() implies #[trigger] apply_each(s, m)[i] == s[i] by {
        m.lemma_identity_applies_nothing(s[i]);
    }
    assert(apply_each(s, m) =~= s);
}

impl<A: Semigroup, B: Semigroup, MA: Applier<A>, MB: Applier<B>> Applier<(A, B)> for (MA, MB) {
    open spec fn spec_apply(&self, to: (A, B)) -> (A, B) {
        (self.0.spec_apply(to.0), self.1.spec_apply(to.1))
    }

    proof fn lemma_apply_merge(&self, a: (A, B), b: (A, B)) {
        self.0.lemma_apply_merge(a.0, b.0);
        self.1.lemma_apply_merge(a.1, b.1);
    }

    proof fn lemma_apply_identity(&self, a: (A, B)) {
        assert forall|x: A| #[trigger] a.0.spec_merge(x) == x && x.spec_merge(a.0) == x by {
            assert(a.spec_merge((x, a.1)) == (x, a.1));
            assert((x, a.1).spec_merge(a) == (x, a.1));
        }
        assert forall|x: B| #[trigger] a.1.spec_merge(x) == x && x.spec_merge(a.1) == x by {
            assert(a.spec_merge((a.0, x)) == (a.0, x));
            assert((a.0, x).spec_merge(a) == (a.0, x));
        }
        self.0.lemma_apply_identity(a.0);
        self.1.lemma_apply_identity(a.1);
    }

    proof fn lemma_apply_compose(m1: Self, m2: Self, v: (A, B)) {
        MA::lemma_apply_compose(m1.0, m2.0, v.0);
        MB::lemma_apply_compose(m1.1, m2.1, v.1);
    }

    proof fn lemma_identity_applies_nothing(&self, v: (A, B)) {
        let m = *self;
        assert forall|x: MA| #[trigger] m.0.spec_merge(x) == x && x.spec_merge(m.0) == x by {
            assert(m.spec_merge((x, m.1)) == (x, m.1));
            assert((x, m.1).spec_merge(m) == (x, m.1));
        }
        assert(is_identity(m.0));
        assert forall|x: MB| #[trigger] m.1.spec_merge(x) == x && x.spec_merge(m.1) == x by {
            assert(m.spec_merge((m.0, x)) == (m.0, x));
            assert((m.0, x).spec_merge(m) == (m.0, x));
        }
        assert(is_identity(m.1));
        self.0.lemma_identity_applies_nothing(v.0);
        self.1.lemma_identity_applies_nothing(v.1);
    }

    fn apply(&self, to: &mut (A, B)) {
        let (ma, mb) = self;
        ma.apply(&mut to.0);
        mb.apply(&mut to.1);
    }

    fn affects(&self, value: &(A, B)) -> (r: bool) {
        let (ma, mb) = self;
        let r = ma.affects(&value.0) || mb.affects(&value.1);
        proof {
            if !r {
                assert forall|s: Seq<(A, B)>| s.len() > 0 && #[trigger] fold1(s) == *value implies forall|i: int|
                    0 <= i < s.len() ==> self.spec_apply(#[trigger] s[i]) == s[i] by {
                    let firsts = s.map_values(|p: (A, B)| p.0);
                    let seconds = s.map_values(|p: (A, B)| p.1);
                    lemma_fold1_pairs(s);
                    assert forall|i: int| 0 <= i < s.len() implies self.spec_apply(#[trigger] s[i]) == s[i] by {
                        assert(ma.spec_apply(firsts[i]) == firsts[i]);
                        assert(mb.spec_apply(seconds[i]) == seconds[i]);
                    }
                }
            }
        }
        r
    }
}

/// The fold of pairs is the pair of the folds of the components.
proof fn lemma_fold1_pairs<A: Semigroup, B: Semigroup>(s: Seq<(A, B)>)
    requires
        s.len() > 0,
    ensures
        fold1(s) == (fold1(s.map_values(|p: (A, B)| p.0)), fold1(s.map_values(|p: (A, B)| p.1))),
    decreases s.len(),
{
    if s.len() > 1 {
        lemma_fold1_pairs(s.drop_last());
        assert(s.drop_last().map_values(|p: (A, B)| p.0) =~= s.map_values(|p: (A, B)| p.0).drop_last());
        assert(s.drop_last().map_values(|p: (A, B)| p.1) =~= s.map_values(|p: (A, B)| p.1).drop_last());
    }
}

impl<A: Semigroup, M: Applier<A>> Applier<A> for Option<M> {
    open spec fn spec_apply(&self, to: A) -> A {
        match self {
            None => to,
            Some(f) => f.spec_apply(to),
        }
    }

    proof fn lemma_apply_merge(&self, a: A, b: A) {
        if let Some(f) = self {
            f.lemma_apply_merge(a, b);
        }
    }

    proof fn lemma_apply_identity(&self, a: A) {
        if let Some(f) = self {
            f.lemma_apply_identity(a);
        }
    }

    proof fn lemma_apply_compose(m1: Self, m2: Self, v: A) {
        if m1.is_some() && m2.is_some() {
            M::lemma_apply_compose(m1.unwrap(), m2.unwrap(), v);
        }
    }

    proof fn lemma_identity_applies_nothing(&self, v: A) {
        if self.is_some() {
            assert(self.spec_merge(None) == None::<M>);
        }
    }

    fn apply(&self, to: &mut A) {
        if let Some(f) = self {
            f.apply(to);
        }
    }

    fn affects(&self, value: &A) -> (r: bool)
        ensures
            self is None ==> !r,
    {
        match self {
            Some(f) => f.affects(value),
            None => false,
        }
    }

    fn apply_slice(&self, to: &mut [A]) {
        if let Some(f) = self {
            f.apply_slice(to);
            assert(to@ =~= old(to)@.map_values(|v: A| self.spec_apply(v)));
        } else {
            assert(to@ =~= old(to)@.map_values(|v: A| self.spec_apply(v)));
        }
    }
}

/// A leaf block of up to `N` values; the slots past the tree's size hold `empty`.
pub struct SegBlock<V, const N: usize> {
    value: V,
    items: [V; N],
}

/// An array whose element `i` is `f(i)`.
///
/// Calls `std::array::from_fn`, which calls `f` once on each index and keeps the results in
/// order; stated: element `i` is a result that `f` may give for `i`.
#[verifier::external_body]
pub(crate) fn array_from_fn<T, const N: usize, F: Fn(usize) -> T>(f: F) -> (r: [T; N])
    requires
        forall|i: usize| i < N ==> #[trigger] f.requires((i,)),
    ensures
        forall|i: int| 0 <= i < N ==> f.ensures((i as usize,), #[trigger] r@[i]),
{
    std::array::from_fn(f)
}

/// At most how many nodes an operation on `len` elements allocates: a tree of `len > 0`
/// elements has at most `2 * len - 1` nodes, and the root is never allocated.
pub open spec fn node_allocs(len: int) -> int {
    if len <= 0 {
        0
    } else {
        2 * len - 2
    }
}

/// `refs` can take `k` more values.
pub open spec fn has_room<T, Rf, R: RefStore<T, Rf>>(refs: R, k: int) -> bool {
    !refs.spec_bounded() || refs.spec_room() >= k
}

/// Going from `old` to `new` allocated at most `k` values.
pub open spec fn used_at_most<T, Rf, R: RefStore<T, Rf>>(new: R, old: R, k: int) -> bool {
    old.spec_bounded() ==> new.spec_room() + k >= old.spec_room()
}

/// How many blocks of `b` elements hold `len` elements: `len / b` rounded up.
pub open spec fn block_count(len: int, b: int) -> int {
    if len % b == 0 {
        len / b
    } else {
        len / b + 1
    }
}

/// Where a range of `len` elements is split: after half of its blocks of `b`, rounded down.
pub open spec fn left_split_size(len: int, b: int) -> int {
    (block_count(len, b) / 2) * b
}

/// How many nodes building a tree of `len` elements in blocks of `b` allocates: one leaf per
/// block, the branches above them, and not the root.
pub open spec fn build_allocs(len: int, b: int) -> int {
    if len <= 0 {
        0
    } else {
        2 * block_count(len, b) - 2
    }
}

/// Up to `b` elements make one block, which building allocates nothing for.
pub proof fn lemma_one_block(len: int, b: int)
    requires
        0 < len <= b,
    ensures
        block_count(len, b) == 1,
        build_allocs(len, b) == 0,
{
    if len < b {
        vstd::arithmetic::div_mod::lemma_fundamental_div_mod_converse(len, b, 0, len);
    } else {
        vstd::arithmetic::div_mod::lemma_fundamental_div_mod_converse(len, b, 1, 0);
    }
}

/// Splitting `len > b` elements after half of their blocks keeps every block whole: the two
/// parts are built with the nodes of the whole, less the two that the split itself adds.
pub proof fn lemma_build_allocs_split(len: int, b: int)
    requires
        0 < b < len,
    ensures
        0 < left_split_size(len, b) < len,
        build_allocs(left_split_size(len, b), b) + build_allocs(len - left_split_size(len, b), b) + 2
            == build_allocs(len, b),
        build_allocs(len, b) <= node_allocs(len),
{
    let q = len / b;
    let r = len % b;
    vstd::arithmetic::div_mod::lemma_fundamental_div_mod(len, b);
    assert(q >= 1) by (nonlinear_arith)
        requires
            0 < b < len,
            len == b * q + r,
            0 <= r < b,
    ;
    assert(r == 0 ==> q >= 2) by (nonlinear_arith)
        requires
            0 < b < len,
            len == b * q + r,
    ;
    let bc = block_count(len, b);
    assert(bc == (if r == 0 { q } else { q + 1 }));
    let h = bc / 2;
    assert(1 <= h <= q);
    assert(r == 0 ==> h < q);
    let l = h * b;
    vstd::arithmetic::div_mod::lemma_fundamental_div_mod_converse(l, b, h, 0);
    assert(len - l == (q - h) * b + r) by (nonlinear_arith)
        requires
            len == b * q + r,
            l == h * b,
    ;
    vstd::arithmetic::div_mod::lemma_fundamental_div_mod_converse(len - l, b, q - h, r);
    assert(l < len) by (nonlinear_arith)
        requires
            len == b * q + r,
            l == h * b,
            h <= q,
            r == 0 ==> h < q,
            0 <= r < b,
            b > 0,
    ;
    assert(l > 0) by (nonlinear_arith)
        requires
            l == h * b,
            h >= 1,
            b > 0,
    ;
    assert(bc <= len) by (nonlinear_arith)
        requires
            len == b * q + r,
            bc == (if r == 0 { q } else { q + 1 }),
            0 <= r < b,
            b >= 1,
            q >= 1,
    ;
}

/// A node of a store-backed segment tree. A branch knows the size of its left part; the
/// size of the node itself is passed down from its parent.
pub enum SegNode<V, M, const B: usize, Rf> {
    Empty,
    Block(SegBlock<V, B>),
    Branch { left_size: usize, modifier: M, value: V, left: Rf, right: Rf },
}

/// A segment tree of `len` elements whose nodes live in a store.
pub struct SegTree<V, M, const B: usize, Rf = ArenaRef<'static>> {
    len: usize,
    root: SegNode<V, M, B, Rf>,
}

/// The values of a segment tree, in order, with the pending modifiers applied.
pub struct Iter<V> {
    values: Vec<V>,
    next: usize,
}

impl<V, const N: usize> SegBlock<V, N> {
    pub closed spec fn spec_value(&self) -> V {
        self.value
    }

    pub closed spec fn spec_items(&self) -> Seq<V> {
        self.items@
    }

    pub closed spec fn spec_item(&self, i: usize) -> V {
        self.items@[i as int]
    }
}

/// `v` is what slot `i` of a block built from `init` at `offset` holds.
spec fn block_slot<V: Monoid, F: Fn(usize) -> V>(init: F, offset: usize, len: usize, i: usize, v: V) -> bool {
    &&& i < len ==> call_ensures(init, ((offset + i) as usize,), v)
    &&& i >= len ==> v == V::spec_empty()
}

impl<V: Semigroup, const N: usize> Duplicate for SegBlock<V, N> {
    fn duplicate(&self) -> (r: Self) {
        let items = array_from_fn(|i: usize| -> (v: V) requires N > i, ensures v == self.spec_item(i), { self.items[i].duplicate() });
        proof {
            assert(items =~= self.items);
        }
        SegBlock { value: self.value.duplicate(), items }
    }
}

impl<V: Semigroup, M: Semigroup, const B: usize, Rf: Copy> Duplicate for SegNode<V, M, B, Rf> {
    fn duplicate(&self) -> (r: Self) {
        match self {
            SegNode::Empty => SegNode::Empty,
            SegNode::Block(block) => SegNode::Block(block.duplicate()),
            SegNode::Branch { left_size, modifier, value, left, right } => SegNode::Branch {
                left_size: *left_size,
                modifier: modifier.duplicate(),
                value: value.duplicate(),
                left: *left,
                right: *right,
            },
        }
    }
}

impl<V: Monoid, const N: usize> SegBlock<V, N> {
    /// Well-formedness for a block that holds `size` values: all `N` slots exist, the slots
    /// past `size` hold `empty`, and `value` is the fold of all slots.
    pub closed spec fn wf(&self, size: nat) -> bool {
        &&& 0 < size <= N
        &&& self.items@.len() == N
        &&& forall|i: int| size <= i < N ==> #[trigger] self.items@[i] == V::spec_empty()
        &&& self.value == fold(self.items@)
    }

    /// The fold of slots `lo..hi`, where the slots past `size` hold `empty`, is the fold of
    /// the values in that range clamped to `size`.
    proof fn lemma_fold_clamped(&self, size: nat, lo: int, hi: int)
        requires
            self.wf(size),
            0 <= lo <= hi <= N,
        ensures
            fold(self.items@.subrange(lo, hi)) == range_fold(self.items@.take(size as int), lo, hi),
    {
        let s = self.items@;
        let k = size as int;
        let clo = if lo < k { lo } else { k };
        let chi = if hi < k { hi } else { k };
        if lo < k {
            lemma_fold_split(s, lo, chi, hi);
            lemma_fold_all_empty::<V>(s.subrange(chi, hi));
            V::lemma_empty_identity(fold(s.subrange(lo, chi)));
            assert(s.take(k).subrange(clo, chi) =~= s.subrange(lo, chi));
        } else {
            lemma_fold_all_empty::<V>(s.subrange(lo, hi));
        }
    }

    fn build<F: Fn(usize) -> V>(offset: usize, len: usize, init: &F) -> (r: Self)
        requires
            0 < len <= N,
            offset + len <= usize::MAX,
            forall|i: usize| offset <= i < offset + len ==> call_requires(*init, (i,)),
        ensures
            r.wf(len as nat),
            forall|i: int| 0 <= i < len ==> call_ensures(*init, ((offset + i) as usize,), #[trigger] r.items@[i]),
    {
        let items = array_from_fn(|i: usize| -> (v: V) requires N > i, ensures block_slot(*init, offset, len, i, v), { if i < len { init(offset + i) } else { V::empty() } });
        let mut value = V::empty();
        let mut i: usize = 0;
        while i < N
            invariant
                i <= N,
                value == fold(items@.subrange(0, i as int)),
            decreases N - i,
        {
            value = value.merge(items[i].duplicate());
            i = i + 1;
            assert(items@.subrange(0, i as int).drop_last() =~= items@.subrange(0, (i - 1) as int));
        }
        assert(items@.subrange(0, N as int) =~= items@);
        SegBlock { value, items }
    }

    fn all(&self) -> (r: V)
        ensures
            r == self.value,
    {
        self.value.duplicate()
    }

    /// The fold of the slots in `range` (clamped to `N`).
    fn query(&self, range: Range<usize>) -> (r: V)
        requires
            exists|size: nat| self.wf(size),
        ensures
            forall|size: nat| self.wf(size) ==> r == range_fold(#[trigger] self.items@.take(size as int), range.start as int, range.end as int),
    {
        let ghost size = choose|size: nat| self.wf(size);
        if range.start >= range.end {
            return V::empty();
        }
        if range.start == 0 && range.end >= N {
            proof {
                assert forall|size: nat| self.wf(size) implies self.value == range_fold(#[trigger] self.items@.take(size as int), range.start as int, range.end as int) by {
                    self.lemma_fold_clamped(size, 0, N as int);
                    assert(self.items@.subrange(0, N as int) =~= self.items@);
                }
            }
            return self.all();
        }
        let lo = if range.start < N { range.start } else { N };
        let hi = if range.end < N { range.end } else { N };
        let mut result = V::empty();
        let mut i = lo;
        while i < hi
            invariant
                lo <= i <= hi <= N,
                self.items@.len() == N,
                result == fold(self.items@.subrange(lo as int, i as int)),
            decreases hi - i,
        {
            result = result.merge(self.items[i].duplicate());
            i = i + 1;
            assert(self.items@.subrange(lo as int, i as int).drop_last() =~= self.items@.subrange(lo as int, (i - 1) as int));
        }
        proof {
            assert forall|size: nat| self.wf(size) implies result == range_fold(#[trigger] self.items@.take(size as int), range.start as int, range.end as int) by {
                self.lemma_fold_clamped(size, lo as int, hi as int);
                let t = self.items@.take(size as int);
                let tlo = if range.start < size { range.start as int } else { size as int };
                let thi = if range.end < size { range.end as int } else { size as int };
                let clo = if (lo as int) < size { lo as int } else { size as int };
                let chi = if (hi as int) < size { hi as int } else { size as int };
                assert(tlo == clo && thi == chi);
            }
        }
        result
    }
}

impl<V: Monoid, M: Applier<V>, const B: usize, Rf> SegNode<V, M, B, Rf> {
    /// The elements of a node of `size` elements, with the pending modifiers applied.
    pub closed spec fn seq_in<R: RefStore<Self, Rf>>(self, refs: R, size: nat) -> Seq<V>
        decreases size,
    {
        match self {
            SegNode::Empty => Seq::empty(),
            SegNode::Block(b) => b.items@.take(size as int),
            SegNode::Branch { left_size, modifier, left, right, .. } => {
                if 0 < left_size < size {
                    apply_each(
                        refs.spec_get(left).seq_in(refs, left_size as nat) + refs.spec_get(right).seq_in(
                            refs,
                            (size - left_size) as nat,
                        ),
                        modifier,
                    )
                } else {
                    Seq::empty()
                }
            }
        }
    }

    /// Well-formedness of a node of `size` elements whose children live in `refs`.
    pub closed spec fn wf_in<R: RefStore<Self, Rf>>(self, refs: R, size: nat) -> bool
        decreases size,
    {
        match self {
            SegNode::Empty => size == 0,
            SegNode::Block(b) => b.wf(size),
            SegNode::Branch { left_size, modifier, value, left, right } => {
                &&& 0 < left_size < size
                &&& refs.spec_contains(left)
                &&& refs.spec_contains(right)
                &&& refs.spec_get(left).wf_in(refs, left_size as nat)
                &&& refs.spec_get(right).wf_in(refs, (size - left_size) as nat)
                &&& value == fold(self.seq_in(refs, size))
            }
        }
    }

    /// The references that a node of `size` elements reaches.
    pub closed spec fn refs_in<R: RefStore<Self, Rf>>(self, refs: R, size: nat) -> Set<Rf>
        decreases size,
    {
        match self {
            SegNode::Branch { left_size, left, right, .. } => {
                if 0 < left_size < size {
                    set![left, right] + refs.spec_get(left).refs_in(refs, left_size as nat) + refs.spec_get(
                        right,
                    ).refs_in(refs, (size - left_size) as nat)
                } else {
                    Set::empty()
                }
            }
            _ => Set::empty(),
        }
    }

    /// No reference is reached twice: the node is a tree, not a shared graph.
    pub closed spec fn unique_in<R: RefStore<Self, Rf>>(self, refs: R, size: nat) -> bool
        decreases size,
    {
        match self {
            SegNode::Branch { left_size, left, right, .. } => {
                if 0 < left_size < size {
                    let lrefs = refs.spec_get(left).refs_in(refs, left_size as nat);
                    let rrefs = refs.spec_get(right).refs_in(refs, (size - left_size) as nat);
                    &&& left != right
                    &&& !lrefs.contains(left) && !lrefs.contains(right)
                    &&& !rrefs.contains(left) && !rrefs.contains(right)
                    &&& lrefs.disjoint(rrefs)
                    &&& refs.spec_get(left).unique_in(refs, left_size as nat)
                    &&& refs.spec_get(right).unique_in(refs, (size - left_size) as nat)
                } else {
                    true
                }
            }
            _ => true,
        }
    }

    /// A node keeps its meaning in a store that agrees on every reference the node reaches.
    pub proof fn lemma_frame<R: RefStore<Self, Rf>>(self, a: R, b: R, size: nat)
        requires
            self.wf_in(a, size),
            forall|q: Rf| #[trigger] self.refs_in(a, size).contains(q) ==> b.spec_contains(q) && b.spec_get(q) == a.spec_get(q),
        ensures
            self.wf_in(b, size),
            self.seq_in(b, size) == self.seq_in(a, size),
            self.refs_in(b, size) == self.refs_in(a, size),
            self.unique_in(b, size) == self.unique_in(a, size),
        decreases size,
    {
        if let SegNode::Branch { left_size, left, right, .. } = self {
            let ls = left_size as nat;
            let rs = (size - left_size) as nat;
            let ln = a.spec_get(left);
            let rn = a.spec_get(right);
            assert(self.refs_in(a, size).contains(left));
            assert(self.refs_in(a, size).contains(right));
            assert forall|q: Rf| #[trigger] ln.refs_in(a, ls).contains(q) implies b.spec_contains(q) && b.spec_get(q) == a.spec_get(q) by {
                assert(self.refs_in(a, size).contains(q));
            }
            assert forall|q: Rf| #[trigger] rn.refs_in(a, rs).contains(q) implies b.spec_contains(q) && b.spec_get(q) == a.spec_get(q) by {
                assert(self.refs_in(a, size).contains(q));
            }
            ln.lemma_frame(a, b, ls);
            rn.lemma_frame(a, b, rs);
        }
    }

    /// A node keeps its meaning when the store grows.
    pub proof fn lemma_extends<R: RefStore<Self, Rf>>(self, a: R, b: R, size: nat)
        requires
            self.wf_in(a, size),
            store_extends(b, a),
        ensures
            self.wf_in(b, size),
            self.seq_in(b, size) == self.seq_in(a, size),
            self.refs_in(b, size) == self.refs_in(a, size),
            self.unique_in(b, size) == self.unique_in(a, size),
    {
        self.lemma_refs_contained(a, size);
        self.lemma_frame(a, b, size);
    }

    /// Every reference a well-formed node reaches is in the store.
    pub proof fn lemma_refs_contained<R: RefStore<Self, Rf>>(self, refs: R, size: nat)
        requires
            self.wf_in(refs, size),
        ensures
            forall|q: Rf| #[trigger] self.refs_in(refs, size).contains(q) ==> refs.spec_contains(q),
        decreases size,
    {
        if let SegNode::Branch { left_size, left, right, .. } = self {
            let ls = left_size as nat;
            let rs = (size - left_size) as nat;
            refs.spec_get(left).lemma_refs_contained(refs, ls);
            refs.spec_get(right).lemma_refs_contained(refs, rs);
            assert(self.refs_in(refs, size) == set![left, right] + refs.spec_get(left).refs_in(refs, ls) + refs.spec_get(right).refs_in(refs, rs));
        }
    }

    /// A node of `size` elements has `size` elements.
    pub proof fn lemma_seq_len<R: RefStore<Self, Rf>>(self, refs: R, size: nat)
        requires
            self.wf_in(refs, size),
        ensures
            self.seq_in(refs, size).len() == size,
        decreases size,
    {
        if let SegNode::Branch { left_size, left, right, .. } = self {
            refs.spec_get(left).lemma_seq_len(refs, left_size as nat);
            refs.spec_get(right).lemma_seq_len(refs, (size - left_size) as nat);
        }
    }
}

impl<V: Monoid, M: Applier<V> + Monoid, const B: usize, Rf: Copy> SegNode<V, M, B, Rf> {
    /// The fold of all elements of the node.
    fn all<R: RefStore<Self, Rf>>(&self, Ghost(refs): Ghost<R>, Ghost(size): Ghost<nat>) -> (r: V)
        requires
            self.wf_in(refs, size),
        ensures
            r == fold(self.seq_in(refs, size)),
    {
        match self {
            SegNode::Empty => V::empty(),
            SegNode::Block(block) => {
                proof {
                    block.lemma_fold_clamped(size, 0, B as int);
                    assert(block.items@.subrange(0, B as int) =~= block.items@);
                    assert(block.items@.take(size as int).subrange(0, size as int) =~= block.items@.take(size as int));
                }
                block.all()
            }
            SegNode::Branch { value, .. } => value.duplicate(),
        }
    }

    /// Splits `len > B` elements into a left part of whole blocks and a non-empty right part.
    fn split_left_size(len: usize) -> (r: usize)
        requires
            0 < B < len,
        ensures
            r == left_split_size(len as int, B as int),
            0 < r < len,
    {
        proof {
            assert(len % B != 0 ==> len / B < usize::MAX) by (nonlinear_arith)
                requires
                    0 < B < len,
            {
                if len % B != 0 {
                    assert(B != 1);
                    assert(len / B <= len / 2);
                }
            }
        }
        let blocks = if len % B != 0 { len / B + 1 } else { len / B };
        let left_blocks = blocks / 2;
        proof {
            assert(blocks >= 2) by (nonlinear_arith)
                requires
                    0 < B < len,
                    blocks == if len % B != 0 { (len / B) as int + 1 } else { (len / B) as int },
            {
                assert(len / B >= 1);
                if len % B == 0 {
                    assert(len / B * B == len);
                    assert(len / B != 1);
                }
            }
            assert(left_blocks * B < len) by (nonlinear_arith)
                requires
                    0 < B,
                    blocks == if len % B != 0 { (len / B) as int + 1 } else { (len / B) as int },
                    left_blocks == blocks / 2,
                    blocks >= 2,
            {
                assert(left_blocks <= blocks - 1);
                assert((blocks - 1) * B <= len / B * B);
                assert(len / B * B <= len);
                if len % B != 0 {
                    assert((blocks - 1) * B == len / B * B);
                    assert(len / B * B < len);
                } else {
                    assert(len / B * B == len);
                    assert(left_blocks <= blocks - 1);
                    assert(left_blocks * B <= (blocks - 1) * B);
                    assert((blocks - 1) * B < blocks * B);
                }
            }
            assert(left_blocks * B >= B) by (nonlinear_arith)
                requires
                    left_blocks >= 1,
                    B > 0,
            {
            }
        }
        left_blocks * B
    }
}

/// Facts about `apply_each` that the tree proofs use.
proof fn lemma_apply_each_concat<V: Semigroup, M: Applier<V>>(a: Seq<V>, b: Seq<V>, m: M)
    ensures
        apply_each(a + b, m) == apply_each(a, m) + apply_each(b, m),
{
    assert(apply_each(a + b, m) =~= apply_each(a, m) + apply_each(b, m));
}

proof fn lemma_apply_each_compose<V: Semigroup, M: Applier<V>>(s: Seq<V>, m1: M, m2: M)
    ensures
        apply_each(apply_each(s, m2), m1) == apply_each(s, m1.spec_merge(m2)),
{
    assert forall|i: int| 0 <= i < s.len() implies #[trigger] apply_each(apply_each(s, m2), m1)[i] == apply_each(s, m1.spec_merge(m2))[i] by {
        M::lemma_apply_compose(m1, m2, s[i]);
    }
    assert(apply_each(apply_each(s, m2), m1) =~= apply_each(s, m1.spec_merge(m2)));
}

impl<V: Monoid, M: Applier<V> + Monoid, const B: usize, Rf: Copy> SegNode<V, M, B, Rf> {
    fn build_inner<F: Fn(usize) -> V, R: RefStore<Self, Rf>>(refs: &mut R, offset: usize, len: usize, init: &F) -> (r: Self)
        requires
            B > 0,
            has_room::<Self, Rf, R>(*old(refs), build_allocs(len as int, B as int)),
            offset + len <= usize::MAX,
            forall|i: usize| offset <= i < offset + len ==> call_requires(*init, (i,)),
        ensures
            store_extends(*final(refs), *old(refs)),
            used_at_most::<Self, Rf, R>(*final(refs), *old(refs), build_allocs(len as int, B as int)),
            r.wf_in(*final(refs), len as nat),
            r.seq_in(*final(refs), len as nat).len() == len,
            forall|i: int| 0 <= i < len ==> call_ensures(*init, ((offset + i) as usize,), #[trigger] r.seq_in(*final(refs), len as nat)[i]),
            old(refs).spec_fresh_refs() ==> r.unique_in(*final(refs), len as nat),
            old(refs).spec_fresh_refs() ==> forall|q: Rf| #[trigger] r.refs_in(*final(refs), len as nat).contains(q) ==> !old(refs).spec_contains(q),
        decreases len,
    {
        if len == 0 {
            SegNode::Empty
        } else if len <= B {
            proof {
                lemma_one_block(len as int, B as int);
            }
            let block = SegBlock::build(offset, len, init);
            let r = SegNode::Block(block);
            proof {
                assert forall|i: int| 0 <= i < len implies call_ensures(*init, ((offset + i) as usize,), #[trigger] r.seq_in(*refs, len as nat)[i]) by {
                    assert(r.seq_in(*refs, len as nat)[i] == block.items@[i]);
                }
            }
            r
        } else {
            let ghost refs0 = *refs;
            let left_size = Self::split_left_size(len);
            proof {
                lemma_build_allocs_split(len as int, B as int);
            }
            let left = Self::build_inner(refs, offset, left_size, init);
            let ghost refs1 = *refs;
            let right = Self::build_inner(refs, offset + left_size, len - left_size, init);
            let ghost refs2 = *refs;
            let ghost ls = left_size as nat;
            let ghost rs = (len - left_size) as nat;
            proof {
                left.lemma_extends(refs1, refs2, ls);
                left.lemma_seq_len(refs2, ls);
                right.lemma_seq_len(refs2, rs);
                left.lemma_refs_contained(refs1, ls);
                right.lemma_refs_contained(refs2, rs);
            }
            let lv = left.all::<R>(Ghost(*refs), Ghost(ls));
            let rv = right.all::<R>(Ghost(*refs), Ghost(rs));
            let value = lv.merge(rv);
            let left_ref = refs.allocate(left);
            let ghost refs3 = *refs;
            let right_ref = refs.allocate(right);
            let ghost refs4 = *refs;
            let r = SegNode::Branch { left_size, modifier: M::empty(), value, left: left_ref, right: right_ref };
            proof {
                assert(store_extends(refs4, refs2));
                left.lemma_extends(refs2, refs4, ls);
                right.lemma_extends(refs2, refs4, rs);
                assert(refs4.spec_get(left_ref) == left);
                assert(refs4.spec_get(right_ref) == right);
                let inner = left.seq_in(refs2, ls) + right.seq_in(refs2, rs);
                lemma_empty_is_identity::<M>();
                lemma_identity_map(M::spec_empty(), inner);
                assert(r.seq_in(refs4, len as nat) == inner);
                lemma_fold_concat(left.seq_in(refs2, ls), right.seq_in(refs2, rs));
                assert forall|i: int| 0 <= i < len implies call_ensures(*init, ((offset + i) as usize,), #[trigger] r.seq_in(refs4, len as nat)[i]) by {
                    if i < left_size {
                        assert(r.seq_in(refs4, len as nat)[i] == left.seq_in(refs2, ls)[i]);
                    } else {
                        assert(r.seq_in(refs4, len as nat)[i] == right.seq_in(refs2, rs)[i - left_size]);
                        assert((offset + left_size + (i - left_size)) as usize == (offset + i) as usize);
                    }
                }
                assert(r.refs_in(refs4, len as nat) == set![left_ref, right_ref] + left.refs_in(refs1, ls) + right.refs_in(refs2, rs));
                if refs0.spec_fresh_refs() {
                    assert(!refs2.spec_contains(left_ref));
                    assert(!refs3.spec_contains(right_ref));
                    assert(refs3.spec_contains(left_ref));
                    assert(left.refs_in(refs1, ls).disjoint(right.refs_in(refs2, rs))) by {
                        assert forall|q: Rf| left.refs_in(refs1, ls).contains(q) implies !right.refs_in(refs2, rs).contains(q) by {
                            assert(refs1.spec_contains(q));
                        }
                    }
                    assert forall|q: Rf| #[trigger] r.refs_in(refs4, len as nat).contains(q) implies !refs0.spec_contains(q) by {
                        if right.refs_in(refs2, rs).contains(q) {
                            assert(!refs1.spec_contains(q));
                        }
                    }
                }
            }
            r
        }
    }

    /// The fold of the elements in `range` (clamped to `size`).
    fn query<R: RefStore<Self, Rf>>(&self, refs: &R, size: usize, range: Range<usize>) -> (r: V)
        requires
            self.wf_in(*refs, size as nat),
        ensures
            r == range_fold(self.seq_in(*refs, size as nat), range.start as int, range.end as int),
        decreases size,
    {
        proof {
            self.lemma_seq_len(*refs, size as nat);
        }
        match self {
            SegNode::Empty => V::empty(),
            SegNode::Block(block) => {
                let r = block.query(range.start..range.end);
                r
            }
            SegNode::Branch { left_size, modifier, value, left, right } => {
                if range.start == 0 && size <= range.end {
                    proof {
                        assert(self.seq_in(*refs, size as nat).subrange(0, size as int) =~= self.seq_in(*refs, size as nat));
                    }
                    value.duplicate()
                } else {
                    let mid = *left_size;
                    let ghost ls = mid as nat;
                    let ghost rs = (size - mid) as nat;
                    let ghost lseq = refs.spec_get(*left).seq_in(*refs, ls);
                    let ghost rseq = refs.spec_get(*right).seq_in(*refs, rs);
                    let ghost s = self.seq_in(*refs, size as nat);
                    proof {
                        refs.spec_get(*left).lemma_seq_len(*refs, ls);
                        refs.spec_get(*right).lemma_seq_len(*refs, rs);
                    }
                    let value = if range.end <= mid {
                        let node = refs.read(left);
                        let q = node.query(refs, mid, range.start..range.end);
                        proof {
                            let lo = range.start as int;
                            let hi = range.end as int;
                            if lo < hi {
                                assert(apply_each(lseq.subrange(lo, hi), *modifier) =~= s.subrange(lo, hi));
                                lemma_fold_apply(*modifier, lseq.subrange(lo, hi));
                            }
                        }
                        q
                    } else if mid <= range.start {
                        let node = refs.read(right);
                        let q = node.query(refs, size - mid, range.start - mid..range.end - mid);
                        proof {
                            let lo = range.start as int;
                            let hi = if range.end < size { range.end as int } else { size as int };
                            if lo < hi {
                                assert(apply_each(rseq.subrange(lo - mid, hi - mid), *modifier) =~= s.subrange(lo, hi));
                                lemma_fold_apply(*modifier, rseq.subrange(lo - mid, hi - mid));
                            }
                        }
                        q
                    } else {
                        let lnode = refs.read(left);
                        let a = lnode.query(refs, mid, range.start..mid);
                        let rnode = refs.read(right);
                        let b = rnode.query(refs, size - mid, 0..range.end - mid);
                        proof {
                            let lo = range.start as int;
                            let hi = if range.end < size { range.end as int } else { size as int };
                            lemma_fold_concat(lseq.subrange(lo, mid as int), rseq.subrange(0, hi - mid));
                            let joined = lseq.subrange(lo, mid as int) + rseq.subrange(0, hi - mid);
                            assert(apply_each(joined, *modifier) =~= s.subrange(lo, hi));
                            lemma_fold_apply(*modifier, joined);
                        }
                        V::merge(a, b)
                    };
                    proof {
                        let lo = if range.start < size { range.start as int } else { size as int };
                        let hi = if range.end < size { range.end as int } else { size as int };
                        if !(lo < hi) {
                            lemma_empty_is_identity::<V>();
                            modifier.lemma_apply_identity(V::spec_empty());
                        }
                    }
                    if modifier.is_empty() {
                        proof {
                            lemma_empty_is_identity::<M>();
                            modifier.lemma_identity_applies_nothing(value);
                        }
                        value
                    } else {
                        modifier.applied(value)
                    }
                }
            }
        }
    }

    /// Appends the elements of the node, each with `prefix` applied, to `out`.
    fn push_values<R: RefStore<Self, Rf>>(&self, refs: &R, size: usize, prefix: &M, out: &mut Vec<V>)
        requires
            self.wf_in(*refs, size as nat),
        ensures
            final(out)@ == old(out)@ + apply_each(self.seq_in(*refs, size as nat), *prefix),
        decreases size,
    {
        match self {
            SegNode::Empty => {
                assert(apply_each(self.seq_in(*refs, size as nat), *prefix) =~= Seq::<V>::empty());
                assert(out@ =~= old(out)@ + Seq::<V>::empty());
            }
            SegNode::Block(block) => {
                let mut i: usize = 0;
                while i < size
                    invariant
                        0 < size <= B,
                        block.items@.len() == B,
                        i <= size,
                        out@ == old(out)@ + apply_each(block.items@.take(i as int), *prefix),
                    decreases size - i,
                {
                    let value = prefix.applied(block.items[i].duplicate());
                    out.push(value);
                    i = i + 1;
                    assert(out@ =~= old(out)@ + apply_each(block.items@.take(i as int), *prefix));
                }
            }
            SegNode::Branch { left_size, modifier, left, right, .. } => {
                let mid = *left_size;
                let prefix2 = prefix.duplicate().merge(modifier.duplicate());
                let lnode = refs.read(left);
                lnode.push_values(refs, mid, &prefix2, out);
                let rnode = refs.read(right);
                rnode.push_values(refs, size - mid, &prefix2, out);
                proof {
                    let lseq = lnode.seq_in(*refs, mid as nat);
                    let rseq = rnode.seq_in(*refs, (size - mid) as nat);
                    lemma_apply_each_compose(lseq + rseq, *prefix, *modifier);
                    lemma_apply_each_concat(lseq, rseq, prefix2);
                    assert(out@ =~= old(out)@ + apply_each(self.seq_in(*refs, size as nat), *prefix));
                }
            }
        }
    }
}

impl<V, M, const B: usize, Rf> SegTree<V, M, B, Rf> {
    /// The number of elements.
    pub closed spec fn spec_len(&self) -> nat {
        self.len as nat
    }
}

impl<V: Monoid, M: Applier<V> + Monoid, const B: usize, Rf: Copy> SegTree<V, M, B, Rf> {
    /// The tree is well formed with its nodes in `refs`.
    pub closed spec fn wf_in<R: RefStore<SegNode<V, M, B, Rf>, Rf>>(&self, refs: R) -> bool {
        self.root.wf_in(refs, self.len as nat)
    }

    /// The elements, with all pending modifiers applied.
    pub closed spec fn seq_in<R: RefStore<SegNode<V, M, B, Rf>, Rf>>(&self, refs: R) -> Seq<V> {
        self.root.seq_in(refs, self.len as nat)
    }

    /// The references the tree reaches in `refs`.
    pub closed spec fn refs_in<R: RefStore<SegNode<V, M, B, Rf>, Rf>>(&self, refs: R) -> Set<Rf> {
        self.root.refs_in(refs, self.len as nat)
    }

    /// No node of the tree is reached twice.
    pub closed spec fn unique_in<R: RefStore<SegNode<V, M, B, Rf>, Rf>>(&self, refs: R) -> bool {
        self.root.unique_in(refs, self.len as nat)
    }

    /// A tree keeps its elements when its store grows.
    pub proof fn lemma_store_grows<R: RefStore<SegNode<V, M, B, Rf>, Rf>>(&self, a: R, b: R)
        requires
            self.wf_in(a),
            store_extends(b, a),
        ensures
            self.wf_in(b),
            self.seq_in(b) == self.seq_in(a),
            self.unique_in(b) == self.unique_in(a),
    {
        self.root.lemma_extends(a, b, self.len as nat);
    }

    /// The number of elements is the length.
    pub proof fn lemma_len<R: RefStore<SegNode<V, M, B, Rf>, Rf>>(&self, refs: R)
        requires
            self.wf_in(refs),
        ensures
            self.seq_in(refs).len() == self.spec_len(),
    {
        self.root.lemma_seq_len(refs, self.len as nat);
    }

    /// Builds a tree of `len` elements in `refs`; element `i` is `init(i)`.
    pub fn build_in<F: Fn(usize) -> V, R: RefStore<SegNode<V, M, B, Rf>, Rf>>(refs: &mut R, len: usize, init: F) -> (r: Self)
        requires
            B > 0,
            has_room::<SegNode<V, M, B, Rf>, Rf, R>(*old(refs), build_allocs(len as int, B as int)),
            forall|i: usize| i < len ==> call_requires(init, (i,)),
        ensures
            store_extends(*final(refs), *old(refs)),
            used_at_most::<SegNode<V, M, B, Rf>, Rf, R>(*final(refs), *old(refs), build_allocs(len as int, B as int)),
            r.wf_in(*final(refs)),
            r.spec_len() == len,
            r.seq_in(*final(refs)).len() == len,
            forall|i: int| 0 <= i < len ==> call_ensures(init, (i as usize,), #[trigger] r.seq_in(*final(refs))[i]),
            old(refs).spec_fresh_refs() ==> r.unique_in(*final(refs)),
    {
        let root = SegNode::build_inner(refs, 0, len, &init);
        let r = SegTree { len, root };
        assert forall|i: int| 0 <= i < len implies call_ensures(init, (i as usize,), #[trigger] r.seq_in(*refs)[i]) by {
            assert((0 + i) as usize == i as usize);
        }
        r
    }

    /// The values in order, each with its pending modifiers applied.
    pub fn iter<R: RefStore<SegNode<V, M, B, Rf>, Rf>>(&self, refs: &R) -> (r: Iter<V>)
        requires
            self.wf_in(*refs),
        ensures
            r.spec_rest() == self.seq_in(*refs),
    {
        let mut values: Vec<V> = Vec::new();
        let prefix = M::empty();
        self.root.push_values(refs, self.len, &prefix, &mut values);
        proof {
            lemma_empty_is_identity::<M>();
            lemma_identity_map(M::spec_empty(), self.seq_in(*refs));
            assert(values@ =~= self.seq_in(*refs));
        }
        Iter { values, next: 0 }
    }

    /// The fold of the elements in `range` (clamped to the length).
    pub fn query<R: RefStore<SegNode<V, M, B, Rf>, Rf>>(&self, refs: &R, range: Range<usize>) -> (r: V)
        requires
            self.wf_in(*refs),
        ensures
            r == range_fold(self.seq_in(*refs), range.start as int, range.end as int),
    {
        self.root.query(refs, self.len, range)
    }
}

impl<V> Iter<V> {
    /// The values not yet handed out.
    pub closed spec fn spec_rest(&self) -> Seq<V> {
        if self.next <= self.values@.len() {
            self.values@.skip(self.next as int)
        } else {
            Seq::empty()
        }
    }

    /// The next value, or `None` once all values are handed out.
    pub fn next(&mut self) -> (r: Option<V>)
        where V: Semigroup,
        ensures
            old(self).spec_rest().len() == 0 ==> r.is_none() && final(self).spec_rest() == old(self).spec_rest(),
            old(self).spec_rest().len() > 0 ==> r == Some(old(self).spec_rest()[0]) && final(self).spec_rest() == old(self).spec_rest().skip(1),
    {
        if self.next < self.values.len() {
            let value = self.values[self.next].duplicate();
            self.next = self.next + 1;
            assert(self.values@.skip(self.next as int) =~= old(self).values@.skip(old(self).next as int).skip(1));
            Some(value)
        } else {
            None
        }
    }
}

/// When `affects` answers `false` for the fold of a non-empty sequence, the modifier
/// changes none of its elements.
proof fn lemma_unaffected<V: Monoid, M: Applier<V>>(m: M, s: Seq<V>)
    requires
        s.len() > 0,
        forall|t: Seq<V>| t.len() > 0 && #[trigger] fold1(t) == fold(s) ==> forall|i: int|
            0 <= i < t.len() ==> m.spec_apply(#[trigger] t[i]) == t[i],
    ensures
        apply_each(s, m) == s,
{
    lemma_fold_fold1(s);
    assert(fold1(s) == fold(s));
    assert forall|i: int| 0 <= i < s.len() implies #[trigger] apply_each(s, m)[i] == s[i] by {
        assert(m.spec_apply(s[i]) == s[i]);
    }
    assert(apply_each(s, m) =~= s);
}

impl<V: Monoid, const N: usize> SegBlock<V, N> {
    /// Applies `m` to every slot.
    fn apply_all_mut<M: Applier<V> + Monoid + Clone>(&mut self, m: &M)
        requires
            exists|size: nat| old(self).wf(size),
        ensures
            forall|size: nat| old(self).wf(size) ==> #[trigger] final(self).wf(size),
            final(self).items@ == apply_each(old(self).items@, *m),
    {
        proof {
            lemma_empty_is_identity::<V>();
            m.lemma_apply_identity(V::spec_empty());
        }
        if m.is_empty() {
            proof {
                lemma_empty_is_identity::<M>();
                lemma_identity_map(*m, self.items@);
            }
            return;
        }
        if !m.affects(&self.value) {
            proof {
                lemma_unaffected(*m, self.items@);
            }
            return;
        }
        let ghost old_items = self.items@;
        let slice: &mut [V] = &mut self.items;
        m.apply_slice(slice);
        proof {
            assert(self.items@ =~= apply_each(old_items, *m));
            lemma_fold_apply(*m, old_items);
        }
        m.apply(&mut self.value);
    }

    /// Applies `m` to the slots in `range` (clamped to `N`).
    fn apply_mut<M: Applier<V> + Monoid + Clone>(&mut self, range: Range<usize>, m: &M)
        requires
            exists|size: nat| old(self).wf(size),
        ensures
            forall|size: nat| old(self).wf(size) ==> #[trigger] final(self).wf(size),
            final(self).items@ == apply_range(old(self).items@, range.start as int, range.end as int, *m),
    {
        proof {
            lemma_empty_is_identity::<V>();
            m.lemma_apply_identity(V::spec_empty());
        }
        let m_is_empty = m.is_empty();
        if m_is_empty || range.start >= range.end {
            proof {
                lemma_empty_is_identity::<M>();
                assert forall|i: int| 0 <= i < self.items@.len() implies #[trigger] apply_range(self.items@, range.start as int, range.end as int, *m)[i] == self.items@[i] by {
                    if m_is_empty {
                        m.lemma_identity_applies_nothing(self.items@[i]);
                    }
                }
                assert(apply_range(self.items@, range.start as int, range.end as int, *m) =~= self.items@);
            }
            return;
        }
        if !m.affects(&self.value) {
            proof {
                lemma_unaffected(*m, self.items@);
                assert forall|i: int| 0 <= i < self.items@.len() implies #[trigger] apply_range(self.items@, range.start as int, range.end as int, *m)[i] == self.items@[i] by {
                    assert(apply_each(self.items@, *m)[i] == self.items@[i]);
                }
                assert(apply_range(self.items@, range.start as int, range.end as int, *m) =~= self.items@);
            }
            return;
        }
        if range.start == 0 && range.end >= N {
            self.apply_all_mut(m);
            proof {
                assert(apply_each(old(self).items@, *m) =~= apply_range(old(self).items@, range.start as int, range.end as int, *m));
            }
            return;
        }
        let lo = if range.start < N { range.start } else { N };
        let hi = if range.end < N { range.end } else { N };
        let ghost old_items = self.items@;
        {
            let whole: &mut [V] = &mut self.items;
            let (_before, rest) = whole.split_at_mut(lo);
            let (middle, _after) = rest.split_at_mut(hi - lo);
            m.apply_slice(middle);
        }
        proof {
            assert(self.items@ =~= apply_range(old_items, range.start as int, range.end as int, *m));
        }
        let mut value = V::empty();
        let mut i: usize = 0;
        while i < N
            invariant
                i <= N,
                self.items@.len() == N,
                value == fold(self.items@.subrange(0, i as int)),
            decreases N - i,
        {
            value = value.merge(self.items[i].duplicate());
            i = i + 1;
            assert(self.items@.subrange(0, i as int).drop_last() =~= self.items@.subrange(0, (i - 1) as int));
        }
        assert(self.items@.subrange(0, N as int) =~= self.items@);
        self.value = value;
    }
}

impl<V: Monoid, M: Applier<V> + Monoid + Clone, const B: usize, Rf: Copy> SegNode<V, M, B, Rf> {
    /// Applies `m` to every element of the node, keeping its children as they are.
    fn apply_all_mut<R: RefStore<Self, Rf>>(&mut self, Ghost(refs): Ghost<R>, Ghost(size): Ghost<nat>, m: &M)
        requires
            old(self).wf_in(refs, size),
        ensures
            final(self).wf_in(refs, size),
            final(self).seq_in(refs, size) == apply_each(old(self).seq_in(refs, size), *m),
            final(self).refs_in(refs, size) == old(self).refs_in(refs, size),
            final(self).unique_in(refs, size) == old(self).unique_in(refs, size),
    {
        proof {
            self.lemma_seq_len(refs, size);
        }
        if m.is_empty() {
            proof {
                lemma_empty_is_identity::<M>();
                lemma_identity_map(*m, self.seq_in(refs, size));
            }
            return;
        }
        match self {
            SegNode::Empty => {
                assert(apply_each(old(self).seq_in(refs, size), *m) =~= Seq::<V>::empty());
            }
            SegNode::Block(block) => {
                block.apply_all_mut(m);
                proof {
                    assert(block.wf(size));
                    assert(apply_each(old(self).seq_in(refs, size), *m) =~= block.items@.take(size as int));
                }
            }
            SegNode::Branch { left_size, modifier, value, left, right } => {
                let ghost s = old(self).seq_in(refs, size);
                if !m.affects(value) {
                    proof {
                        lemma_unaffected(*m, s);
                    }
                    return;
                }
                let ghost old_mod = *modifier;
                m.apply(value);
                modifier.prepend_assign(m);
                proof {
                    let ls = *left_size as nat;
                    let inner = refs.spec_get(*left).seq_in(refs, ls) + refs.spec_get(*right).seq_in(refs, (size - ls) as nat);
                    lemma_apply_each_compose(inner, *m, old_mod);
                    lemma_fold_apply(*m, s);
                }
            }
        }
    }

    /// Applies `m` to the elements in `range`, copying the nodes on the way into new nodes of
    /// `refs`; the nodes already in `refs` are left as they are.
    fn apply_owned_mut<R: RefStore<Self, Rf>>(&mut self, refs: &mut R, size: usize, range: Range<usize>, m: &M)
        requires
            old(self).wf_in(*old(refs), size as nat),
            has_room::<Self, Rf, R>(*old(refs), node_allocs(size as int)),
        ensures
            store_extends(*final(refs), *old(refs)),
            used_at_most::<Self, Rf, R>(*final(refs), *old(refs), node_allocs(size as int)),
            final(self).wf_in(*final(refs), size as nat),
            final(self).seq_in(*final(refs), size as nat) == apply_range(
                old(self).seq_in(*old(refs), size as nat),
                range.start as int,
                range.end as int,
                *m,
            ),
            old(refs).spec_fresh_refs() ==> forall|q: Rf| #[trigger] final(self).refs_in(*final(refs), size as nat).contains(q) ==>
                old(self).refs_in(*old(refs), size as nat).contains(q) || !old(refs).spec_contains(q),
            old(refs).spec_fresh_refs() && old(self).unique_in(*old(refs), size as nat) ==> final(self).unique_in(*final(refs), size as nat),
        decreases size,
    {
        let ghost refs0 = *refs;
        let ghost s = old(self).seq_in(refs0, size as nat);
        proof {
            self.lemma_seq_len(refs0, size as nat);
        }
        let m_is_empty = m.is_empty();
        if m_is_empty || range.start >= range.end {
            proof {
                lemma_empty_is_identity::<M>();
                assert forall|i: int| 0 <= i < s.len() implies #[trigger] apply_range(s, range.start as int, range.end as int, *m)[i] == s[i] by {
                    if m_is_empty {
                        m.lemma_identity_applies_nothing(s[i]);
                    }
                }
                assert(apply_range(s, range.start as int, range.end as int, *m) =~= s);
            }
            return;
        }
        match self {
            SegNode::Empty => {
                assert(apply_range(s, range.start as int, range.end as int, *m) =~= s);
            }
            SegNode::Block(block) => {
                block.apply_mut(range.start..range.end, m);
                proof {
                    assert(block.wf(size as nat));
                    assert(apply_range(s, range.start as int, range.end as int, *m) =~= block.items@.take(size as int));
                }
            }
            SegNode::Branch { left_size, modifier, value, left, right } => {
                if !m.affects(value) {
                    proof {
                        lemma_unaffected(*m, s);
                        assert forall|i: int| 0 <= i < s.len() implies #[trigger] apply_range(s, range.start as int, range.end as int, *m)[i] == s[i] by {
                            assert(apply_each(s, *m)[i] == s[i]);
                        }
                        assert(apply_range(s, range.start as int, range.end as int, *m) =~= s);
                    }
                    return;
                }
                if range.start == 0 && size <= range.end {
                    let ghost old_mod = *modifier;
                    m.apply(value);
                    modifier.prepend_assign(m);
                    proof {
                        let ls = *left_size as nat;
                        let inner = refs0.spec_get(*left).seq_in(refs0, ls) + refs0.spec_get(*right).seq_in(refs0, (size - ls) as nat);
                        lemma_apply_each_compose(inner, *m, old_mod);
                        lemma_fold_apply(*m, s);
                        assert(apply_each(s, *m) =~= apply_range(s, range.start as int, range.end as int, *m));
                    }
                    return;
                }
                let mid = *left_size;
                let right_size = size - mid;
                let ghost ls = mid as nat;
                let ghost rs = right_size as nat;
                let ghost lseq = refs0.spec_get(*left).seq_in(refs0, ls);
                let ghost rseq = refs0.spec_get(*right).seq_in(refs0, rs);
                let ghost old_mod = *modifier;
                let ghost ll0 = refs0.spec_get(*left).refs_in(refs0, ls);
                let ghost rr0 = refs0.spec_get(*right).refs_in(refs0, rs);
                let ghost all0 = old(self).refs_in(refs0, size as nat);
                proof {
                    refs0.spec_get(*left).lemma_seq_len(refs0, ls);
                    refs0.spec_get(*right).lemma_seq_len(refs0, rs);
                    refs0.spec_get(*left).lemma_refs_contained(refs0, ls);
                    refs0.spec_get(*right).lemma_refs_contained(refs0, rs);
                    assert(all0 == set![*left, *right] + ll0 + rr0);
                }
                let push_modifier = !modifier.is_empty();
                let old_left = *left;
                let old_right = *right;
                let left_hit = range.start < mid;
                let right_hit = mid < range.end;

                let (left_ref, left_value) = if push_modifier || left_hit {
                    let mut left_node = refs.read(&old_left);
                    if push_modifier {
                        left_node.apply_all_mut::<R>(Ghost(*refs), Ghost(ls), modifier);
                    }
                    if left_hit {
                        let end = if range.end < mid { range.end } else { mid };
                        left_node.apply_owned_mut(refs, mid, range.start..end, m);
                    }
                    let value = left_node.all::<R>(Ghost(*refs), Ghost(ls));
                    let ghost refs_before = *refs;
                    let new_ref = refs.allocate(left_node);
                    proof {
                        left_node.lemma_extends(refs_before, *refs, ls);
                        left_node.lemma_refs_contained(refs_before, ls);
                        assert(refs.spec_get(new_ref) == left_node);
                        assert forall|q: Rf| #[trigger] left_node.refs_in(*refs, ls).contains(q) implies
                            refs_before.spec_contains(q) by {
                        }
                        if refs0.spec_fresh_refs() {
                            assert forall|q: Rf| #[trigger] left_node.refs_in(*refs, ls).contains(q) implies
                                ll0.contains(q) || !refs0.spec_contains(q) by {
                            }
                            assert(!refs_before.spec_contains(new_ref));
                            assert(!refs0.spec_contains(new_ref));
                            assert(!left_node.refs_in(*refs, ls).contains(new_ref));
                        }
                    }
                    (new_ref, value)
                } else {
                    proof {
                        lemma_empty_is_identity::<M>();
                    }
                    let node = refs.read(&old_left);
                    let value = node.all::<R>(Ghost(*refs), Ghost(ls));
                    (old_left, value)
                };
                let ghost refs1 = *refs;
                proof {
                    refs0.spec_get(old_right).lemma_extends(refs0, refs1, rs);
                }

                let (right_ref, right_value) = if push_modifier || right_hit {
                    let mut right_node = refs.read(&old_right);
                    if push_modifier {
                        right_node.apply_all_mut::<R>(Ghost(*refs), Ghost(rs), modifier);
                    }
                    if right_hit {
                        let start = if range.start > mid { range.start } else { mid };
                        right_node.apply_owned_mut(refs, right_size, start - mid..range.end - mid, m);
                    }
                    let value = right_node.all::<R>(Ghost(*refs), Ghost(rs));
                    let ghost refs_before = *refs;
                    let new_ref = refs.allocate(right_node);
                    proof {
                        right_node.lemma_extends(refs_before, *refs, rs);
                        right_node.lemma_refs_contained(refs_before, rs);
                        assert(refs.spec_get(new_ref) == right_node);
                        if refs0.spec_fresh_refs() {
                            assert forall|q: Rf| #[trigger] right_node.refs_in(*refs, rs).contains(q) implies
                                rr0.contains(q) || !refs1.spec_contains(q) by {
                            }
                            assert(!refs_before.spec_contains(new_ref));
                            assert(!refs1.spec_contains(new_ref));
                            assert(!right_node.refs_in(*refs, rs).contains(new_ref));
                        }
                    }
                    (new_ref, value)
                } else {
                    let node = refs.read(&old_right);
                    let value = node.all::<R>(Ghost(*refs), Ghost(rs));
                    (old_right, value)
                };
                let ghost refs2 = *refs;
                proof {
                    refs1.spec_get(left_ref).lemma_extends(refs1, refs2, ls);
                }

                *modifier = M::empty();
                *value = left_value.merge(right_value);
                *left = left_ref;
                *right = right_ref;
                proof {
                    let nl = refs2.spec_get(left_ref).seq_in(refs2, ls);
                    let nr = refs2.spec_get(right_ref).seq_in(refs2, rs);
                    lemma_empty_is_identity::<M>();
                    lemma_identity_map(M::spec_empty(), nl + nr);
                    lemma_fold_concat(nl, nr);
                    if !push_modifier {
                        lemma_identity_map(old_mod, lseq);
                        lemma_identity_map(old_mod, rseq);
                    }
                    assert(nl + nr =~= apply_range(s, range.start as int, range.end as int, *m));
                    let nln = refs2.spec_get(left_ref);
                    let nrn = refs2.spec_get(right_ref);
                    let lr = nln.refs_in(refs2, ls);
                    let rr = nrn.refs_in(refs2, rs);
                    if !(push_modifier || left_hit) {
                        refs0.spec_get(old_left).lemma_extends(refs0, refs2, ls);
                    }
                    if !(push_modifier || right_hit) {
                        refs0.spec_get(old_right).lemma_extends(refs0, refs2, rs);
                    }
                    assert(self.refs_in(refs2, size as nat) == set![left_ref, right_ref] + lr + rr);
                    assert forall|q: Rf| #[trigger] lr.contains(q) implies refs1.spec_contains(q) by {
                    }
                    if refs0.spec_fresh_refs() {
                        assert forall|q: Rf| #[trigger] lr.contains(q) implies ll0.contains(q) || !refs0.spec_contains(q) by {
                        }
                        assert forall|q: Rf| #[trigger] rr.contains(q) implies rr0.contains(q) || !refs1.spec_contains(q) by {
                        }
                        assert forall|q: Rf| #[trigger] self.refs_in(refs2, size as nat).contains(q) implies all0.contains(q) || !refs0.spec_contains(q) by {
                            if rr.contains(q) && !rr0.contains(q) {
                                assert(!refs1.spec_contains(q));
                            }
                        }
                    }
                    if refs0.spec_fresh_refs() && old(self).unique_in(refs0, size as nat) {
                        assert(lr.disjoint(rr)) by {
                            assert forall|q: Rf| lr.contains(q) implies !rr.contains(q) by {
                                if rr.contains(q) {
                                    assert(refs1.spec_contains(q));
                                    assert(rr0.contains(q));
                                    assert(refs0.spec_contains(q));
                                    assert(ll0.contains(q));
                                }
                            }
                        }
                        assert(self.unique_in(refs2, size as nat));
                    }
                }
            }
        }
    }
}

/// `b` differs from `a` at most at the references in `changed`.
pub open spec fn agrees_outside<T, Rf, R: RefStore<T, Rf>>(a: R, b: R, changed: Set<Rf>) -> bool {
    &&& forall|q: Rf| #[trigger] b.spec_contains(q) == a.spec_contains(q)
    &&& forall|q: Rf| a.spec_contains(q) && !changed.contains(q) ==> #[trigger] b.spec_get(q) == a.spec_get(q)
    &&& b.spec_bounded() == a.spec_bounded()
    &&& b.spec_room() == a.spec_room()
    &&& b.spec_fresh_refs() == a.spec_fresh_refs()
}

impl<V: Monoid, M: Applier<V> + Monoid + Clone, const B: usize, Rf: Copy> SegNode<V, M, B, Rf> {
    /// A node keeps its meaning across a change of the store that avoids its references.
    proof fn lemma_untouched<R: RefStore<Self, Rf>>(self, a: R, b: R, size: nat, changed: Set<Rf>)
        requires
            self.wf_in(a, size),
            agrees_outside(a, b, changed),
            self.refs_in(a, size).disjoint(changed),
        ensures
            self.wf_in(b, size),
            self.seq_in(b, size) == self.seq_in(a, size),
            self.refs_in(b, size) == self.refs_in(a, size),
            self.unique_in(b, size) == self.unique_in(a, size),
    {
        self.lemma_refs_contained(a, size);
        assert forall|q: Rf| #[trigger] self.refs_in(a, size).contains(q) implies b.spec_contains(q) && b.spec_get(q) == a.spec_get(q) by {
            assert(!changed.contains(q));
        }
        self.lemma_frame(a, b, size);
    }

    /// Applies `m` to the elements in `range`, changing the nodes of the tree in place.
    fn apply_mut<R: RefStoreMut<Self, Rf>>(&mut self, refs: &mut R, size: usize, range: Range<usize>, m: &M)
        requires
            old(self).wf_in(*old(refs), size as nat),
            old(self).unique_in(*old(refs), size as nat),
        ensures
            final(self).wf_in(*final(refs), size as nat),
            final(self).seq_in(*final(refs), size as nat) == apply_range(
                old(self).seq_in(*old(refs), size as nat),
                range.start as int,
                range.end as int,
                *m,
            ),
            final(self).refs_in(*final(refs), size as nat) == old(self).refs_in(*old(refs), size as nat),
            final(self).unique_in(*final(refs), size as nat),
            agrees_outside(*old(refs), *final(refs), old(self).refs_in(*old(refs), size as nat)),
        decreases size,
    {
        let ghost refs0 = *refs;
        let ghost s = old(self).seq_in(refs0, size as nat);
        let ghost all_refs = old(self).refs_in(refs0, size as nat);
        proof {
            self.lemma_seq_len(refs0, size as nat);
        }
        let m_is_empty = m.is_empty();
        if m_is_empty || range.start >= range.end {
            proof {
                lemma_empty_is_identity::<M>();
                assert forall|i: int| 0 <= i < s.len() implies #[trigger] apply_range(s, range.start as int, range.end as int, *m)[i] == s[i] by {
                    if m_is_empty {
                        m.lemma_identity_applies_nothing(s[i]);
                    }
                }
                assert(apply_range(s, range.start as int, range.end as int, *m) =~= s);
            }
            return;
        }
        match self {
            SegNode::Empty => {
                assert(apply_range(s, range.start as int, range.end as int, *m) =~= s);
            }
            SegNode::Block(block) => {
                block.apply_mut(range.start..range.end, m);
                proof {
                    assert(block.wf(size as nat));
                    assert(apply_range(s, range.start as int, range.end as int, *m) =~= block.items@.take(size as int));
                }
            }
            SegNode::Branch { left_size, modifier, value, left, right } => {
                if !m.affects(value) {
                    proof {
                        lemma_unaffected(*m, s);
                        assert forall|i: int| 0 <= i < s.len() implies #[trigger] apply_range(s, range.start as int, range.end as int, *m)[i] == s[i] by {
                            assert(apply_each(s, *m)[i] == s[i]);
                        }
                        assert(apply_range(s, range.start as int, range.end as int, *m) =~= s);
                    }
                    return;
                }
                if range.start == 0 && size <= range.end {
                    let ghost old_mod = *modifier;
                    m.apply(value);
                    modifier.prepend_assign(m);
                    proof {
                        let ls = *left_size as nat;
                        let inner = refs0.spec_get(*left).seq_in(refs0, ls) + refs0.spec_get(*right).seq_in(refs0, (size - ls) as nat);
                        lemma_apply_each_compose(inner, *m, old_mod);
                        lemma_fold_apply(*m, s);
                        assert(apply_each(s, *m) =~= apply_range(s, range.start as int, range.end as int, *m));
                    }
                    return;
                }
                let mid = *left_size;
                let right_size = size - mid;
                let ghost ls = mid as nat;
                let ghost rs = right_size as nat;
                let left_ref = *left;
                let right_ref = *right;
                let ghost lnode0 = refs0.spec_get(left_ref);
                let ghost rnode0 = refs0.spec_get(right_ref);
                let ghost lrefs = lnode0.refs_in(refs0, ls);
                let ghost rrefs = rnode0.refs_in(refs0, rs);
                let ghost lseq = lnode0.seq_in(refs0, ls);
                let ghost rseq = rnode0.seq_in(refs0, rs);
                let ghost old_mod = *modifier;
                proof {
                    lnode0.lemma_seq_len(refs0, ls);
                    rnode0.lemma_seq_len(refs0, rs);
                    assert(all_refs == set![left_ref, right_ref] + lrefs + rrefs);
                }
                let push_modifier = !modifier.is_empty();
                let left_hit = range.start < mid;
                let right_hit = mid < range.end;
                let left_end = if range.end < mid { range.end } else { mid };
                let right_start = if range.start > mid { range.start } else { mid };

                if push_modifier || (left_hit && right_hit) {
                    let mut left_node = refs.replace_ref(&left_ref, SegNode::Empty);
                    let ghost refs1 = *refs;
                    proof {
                        lnode0.lemma_untouched(refs0, refs1, ls, set![left_ref]);
                    }
                    if push_modifier {
                        left_node.apply_all_mut::<R>(Ghost(*refs), Ghost(ls), modifier);
                    }
                    let ghost lnode1 = left_node;
                    if left_hit {
                        left_node.apply_mut(refs, mid, range.start..left_end, m);
                    } else {
                        proof {
                            assert(apply_range(left_node.seq_in(refs1, ls), range.start as int, left_end as int, *m) =~= left_node.seq_in(refs1, ls));
                        }
                    }
                    let ghost refs2 = *refs;
                    let left_value = left_node.all::<R>(Ghost(*refs), Ghost(ls));
                    refs.set_ref(&left_ref, left_node);
                    let ghost refs3 = *refs;
                    proof {
                        left_node.lemma_untouched(refs2, refs3, ls, set![left_ref]);
                        assert(agrees_outside(refs0, refs3, set![left_ref] + lrefs));
                        rnode0.lemma_untouched(refs0, refs3, rs, set![left_ref] + lrefs);
                    }

                    let mut right_node = refs.replace_ref(&right_ref, SegNode::Empty);
                    let ghost refs4 = *refs;
                    proof {
                        assert(right_node == rnode0);
                        rnode0.lemma_untouched(refs3, refs4, rs, set![right_ref]);
                    }
                    if push_modifier {
                        right_node.apply_all_mut::<R>(Ghost(*refs), Ghost(rs), modifier);
                    }
                    if right_hit {
                        right_node.apply_mut(refs, right_size, right_start - mid..range.end - mid, m);
                    } else {
                        proof {
                            assert(apply_range(right_node.seq_in(refs4, rs), right_start - mid, range.end - mid, *m) =~= right_node.seq_in(refs4, rs));
                        }
                    }
                    let ghost refs5 = *refs;
                    let right_value = right_node.all::<R>(Ghost(*refs), Ghost(rs));
                    refs.set_ref(&right_ref, right_node);
                    let ghost refs6 = *refs;
                    proof {
                        right_node.lemma_untouched(refs5, refs6, rs, set![right_ref]);
                        assert(agrees_outside(refs3, refs6, set![right_ref] + rrefs));
                        left_node.lemma_untouched(refs3, refs6, ls, set![right_ref] + rrefs);
                    }
                    *modifier = M::empty();
                    *value = left_value.merge(right_value);
                    proof {
                        assert(refs6.spec_get(left_ref) == left_node);
                        assert(refs6.spec_get(right_ref) == right_node);
                        let nl = left_node.seq_in(refs6, ls);
                        let nr = right_node.seq_in(refs6, rs);
                        lemma_empty_is_identity::<M>();
                        lemma_identity_map(M::spec_empty(), nl + nr);
                        lemma_fold_concat(nl, nr);
                        if !push_modifier {
                            lemma_identity_map(old_mod, lseq);
                            lemma_identity_map(old_mod, rseq);
                        }
                        assert(nl + nr =~= apply_range(s, range.start as int, range.end as int, *m));
                        assert(agrees_outside(refs0, refs6, all_refs));
                    }
                } else if left_hit {
                    let mut left_node = refs.replace_ref(&left_ref, SegNode::Empty);
                    let ghost refs1 = *refs;
                    proof {
                        lnode0.lemma_untouched(refs0, refs1, ls, set![left_ref]);
                    }
                    left_node.apply_mut(refs, mid, range.start..left_end, m);
                    let ghost refs2 = *refs;
                    let left_value = left_node.all::<R>(Ghost(*refs), Ghost(ls));
                    refs.set_ref(&left_ref, left_node);
                    let ghost refs3 = *refs;
                    proof {
                        left_node.lemma_untouched(refs2, refs3, ls, set![left_ref]);
                        assert(agrees_outside(refs0, refs3, set![left_ref] + lrefs));
                        rnode0.lemma_untouched(refs0, refs3, rs, set![left_ref] + lrefs);
                    }
                    let right_node = refs.read(&right_ref);
                    let right_value = right_node.all::<R>(Ghost(*refs), Ghost(rs));
                    *value = left_value.merge(right_value);
                    proof {
                        let nl = left_node.seq_in(refs3, ls);
                        lemma_empty_is_identity::<M>();
                        lemma_identity_map(old_mod, lseq);
                        lemma_identity_map(old_mod, rseq);
                        lemma_identity_map(old_mod, nl + rseq);
                        lemma_fold_concat(nl, rseq);
                        assert(nl + rseq =~= apply_range(s, range.start as int, range.end as int, *m));
                        assert(agrees_outside(refs0, refs3, all_refs));
                    }
                } else {
                    let mut right_node = refs.replace_ref(&right_ref, SegNode::Empty);
                    let ghost refs1 = *refs;
                    proof {
                        rnode0.lemma_untouched(refs0, refs1, rs, set![right_ref]);
                    }
                    right_node.apply_mut(refs, right_size, right_start - mid..range.end - mid, m);
                    let ghost refs2 = *refs;
                    let right_value = right_node.all::<R>(Ghost(*refs), Ghost(rs));
                    refs.set_ref(&right_ref, right_node);
                    let ghost refs3 = *refs;
                    proof {
                        right_node.lemma_untouched(refs2, refs3, rs, set![right_ref]);
                        assert(agrees_outside(refs0, refs3, set![right_ref] + rrefs));
                        lnode0.lemma_untouched(refs0, refs3, ls, set![right_ref] + rrefs);
                    }
                    let left_node = refs.read(&left_ref);
                    let left_value = left_node.all::<R>(Ghost(*refs), Ghost(ls));
                    *value = left_value.merge(right_value);
                    proof {
                        let nr = right_node.seq_in(refs3, rs);
                        lemma_empty_is_identity::<M>();
                        lemma_identity_map(old_mod, lseq);
                        lemma_identity_map(old_mod, rseq);
                        lemma_identity_map(old_mod, lseq + nr);
                        lemma_fold_concat(lseq, nr);
                        assert(lseq + nr =~= apply_range(s, range.start as int, range.end as int, *m));
                        assert(agrees_outside(refs0, refs3, all_refs));
                    }
                }
            }
        }
    }
}

impl<V: Monoid, M: Applier<V> + Monoid + Clone, const B: usize, Rf: Copy> SegNode<V, M, B, Rf> {
    /// A copy of the node with `m` applied to the elements in `range`; the node and the
    /// nodes already in `refs` are left as they are.
    fn apply<R: RefStore<Self, Rf>>(&self, refs: &mut R, size: usize, range: Range<usize>, m: &M) -> (r: Self)
        requires
            self.wf_in(*old(refs), size as nat),
            has_room::<Self, Rf, R>(*old(refs), node_allocs(size as int)),
        ensures
            old(refs).spec_fresh_refs() && self.unique_in(*old(refs), size as nat) ==> r.unique_in(*final(refs), size as nat),
            store_extends(*final(refs), *old(refs)),
            used_at_most::<Self, Rf, R>(*final(refs), *old(refs), node_allocs(size as int)),
            r.wf_in(*final(refs), size as nat),
            r.seq_in(*final(refs), size as nat) == apply_range(
                self.seq_in(*old(refs), size as nat),
                range.start as int,
                range.end as int,
                *m,
            ),
    {
        let mut node = self.duplicate();
        node.apply_owned_mut(refs, size, range, m);
        node
    }
}

impl<V: Monoid, M: Applier<V> + Monoid + Clone, const B: usize, Rf: Copy> SegTree<V, M, B, Rf> {
    /// A new version of the tree with `m` applied to the elements in `range`; the tree
    /// itself keeps its elements, and the new version shares its untouched nodes.
    pub fn apply<R: RefStore<SegNode<V, M, B, Rf>, Rf>>(&self, refs: &mut R, range: Range<usize>, m: &M) -> (r: Self)
        requires
            self.wf_in(*old(refs)),
            has_room::<SegNode<V, M, B, Rf>, Rf, R>(*old(refs), node_allocs(self.spec_len() as int)),
        ensures
            old(refs).spec_fresh_refs() && self.unique_in(*old(refs)) ==> r.unique_in(*final(refs)),
            store_extends(*final(refs), *old(refs)),
            used_at_most::<SegNode<V, M, B, Rf>, Rf, R>(*final(refs), *old(refs), node_allocs(self.spec_len() as int)),
            r.wf_in(*final(refs)),
            r.spec_len() == self.spec_len(),
            r.seq_in(*final(refs)) == apply_range(self.seq_in(*old(refs)), range.start as int, range.end as int, *m),
            self.wf_in(*final(refs)),
            self.seq_in(*final(refs)) == self.seq_in(*old(refs)),
    {
        let ghost refs0 = *refs;
        let root = self.root.apply(refs, self.len, range, m);
        proof {
            self.lemma_store_grows(refs0, *refs);
        }
        SegTree { len: self.len, root }
    }

    /// Applies `m` to the elements in `range`, changing the tree's nodes in place. Other
    /// trees that share nodes with this one see the change too.
    pub fn apply_mut<R: RefStoreMut<SegNode<V, M, B, Rf>, Rf>>(&mut self, refs: &mut R, range: Range<usize>, m: &M)
        requires
            old(self).wf_in(*old(refs)),
            old(self).unique_in(*old(refs)),
        ensures
            final(self).wf_in(*final(refs)),
            final(self).unique_in(*final(refs)),
            final(self).spec_len() == old(self).spec_len(),
            final(self).seq_in(*final(refs)) == apply_range(old(self).seq_in(*old(refs)), range.start as int, range.end as int, *m),
            final(self).refs_in(*final(refs)) == old(self).refs_in(*old(refs)),
            agrees_outside(*old(refs), *final(refs), old(self).refs_in(*old(refs))),
    {
        let len = self.len;
        self.root.apply_mut(refs, len, range, m);
    }

    /// A tree whose nodes avoid the references that a change of the store touched keeps its
    /// elements.
    pub proof fn lemma_untouched<R: RefStore<SegNode<V, M, B, Rf>, Rf>>(&self, a: R, b: R, changed: Set<Rf>)
        requires
            self.wf_in(a),
            agrees_outside(a, b, changed),
            self.refs_in(a).disjoint(changed),
        ensures
            self.wf_in(b),
            self.seq_in(b) == self.seq_in(a),
    {
        self.root.lemma_untouched(a, b, self.len as nat, changed);
    }
}

impl<V: Semigroup, M: Semigroup, const B: usize, Rf: Copy> SegNode<V, M, B, Rf> {
    /// The node with each child reference replaced by `g` of it.
    pub closed spec fn spec_map_refs<S>(self, g: spec_fn(Rf) -> S) -> SegNode<V, M, B, S> {
        match self {
            SegNode::Empty => SegNode::Empty,
            SegNode::Block(block) => SegNode::Block(block),
            SegNode::Branch { left_size, modifier, value, left, right } => SegNode::Branch {
                left_size,
                modifier,
                value,
                left: g(left),
                right: g(right),
            },
        }
    }

    fn map_refs<S, F: Fn(&Rf) -> S>(&self, ref_map: &F, Ghost(g): Ghost<spec_fn(Rf) -> S>) -> (r: SegNode<V, M, B, S>)
        requires
            forall|x: Rf| #[trigger] ref_map.requires((&x,)),
            forall|x: Rf, y: S| #[trigger] ref_map.ensures((&x,), y) ==> y == g(x),
        ensures
            r == self.spec_map_refs(g),
    {
        match self {
            SegNode::Empty => SegNode::Empty,
            SegNode::Block(block) => SegNode::Block(block.duplicate()),
            SegNode::Branch { left_size, modifier, value, left, right } => SegNode::Branch {
                left_size: *left_size,
                modifier: modifier.duplicate(),
                value: value.duplicate(),
                left: ref_map(left),
                right: ref_map(right),
            },
        }
    }
}

impl<V: Semigroup, M: Semigroup, const B: usize, Rf: Copy> SegTree<V, M, B, Rf> {
    fn map_refs<S, F: Fn(&Rf) -> S>(&self, ref_map: &F, Ghost(g): Ghost<spec_fn(Rf) -> S>) -> (r: SegTree<V, M, B, S>)
        requires
            forall|x: Rf| #[trigger] ref_map.requires((&x,)),
            forall|x: Rf, y: S| #[trigger] ref_map.ensures((&x,), y) ==> y == g(x),
        ensures
            r.len == self.len,
            r.root == self.root.spec_map_refs(g),
    {
        SegTree { len: self.len, root: self.root.map_refs(ref_map, Ghost(g)) }
    }
}

/// Turns a node of a base arena into a node of a layered store over it.
pub struct SegTreeLayerMapper<'store, 'base, 'scratch, V, M, const B: usize> {
    marker: PhantomData<(&'store (), &'base mut &'base (), &'scratch mut &'scratch (), V, M)>,
}

/// A layered store over a base arena of segment tree nodes.
pub type LayeredArenaSegTreeStore<'store, 'base, 'scratch, V, M, const B: usize> = SegTreeStore<
    V,
    M,
    B,
    LayeredArenaStoreFactory<
        'store,
        'scratch,
        SegTreeStore<V, M, B, ArenaStoreFactory<'base>>,
        SegTreeLayerMapper<'store, 'base, 'scratch, V, M, B>,
    >,
>;

/// The reference of a base node, as seen from a layered store.
pub open spec fn base_ref<'base, 'scratch>(r: ArenaRef<'base>) -> LayeredRef<ArenaRef<'base>, ArenaRef<'scratch>> {
    LayeredRef::Base(r)
}

pub(crate) fn to_base_ref<'base, 'scratch>(r: &ArenaRef<'base>) -> (o: LayeredRef<ArenaRef<'base>, ArenaRef<'scratch>>)
    ensures
        o == base_ref(*r),
{
    LayeredRef::Base(*r)
}

impl<'store, 'base, 'scratch, V: Semigroup, M: Semigroup, const B: usize> RefMapper<
    SegNode<V, M, B, LayeredRef<ArenaRef<'base>, ArenaRef<'scratch>>>,
> for SegTreeLayerMapper<'store, 'base, 'scratch, V, M, B> {
    type Source = SegNode<V, M, B, ArenaRef<'base>>;

    open spec fn spec_map_ref(value: SegNode<V, M, B, ArenaRef<'base>>) -> SegNode<V, M, B, LayeredRef<ArenaRef<'base>, ArenaRef<'scratch>>> {
        value.spec_map_refs(|r: ArenaRef<'base>| base_ref(r))
    }

    fn map_ref(value: &SegNode<V, M, B, ArenaRef<'base>>) -> (r: SegNode<V, M, B, LayeredRef<ArenaRef<'base>, ArenaRef<'scratch>>>) {
        value.map_refs(
            &to_base_ref,
            Ghost(|r: ArenaRef<'base>| base_ref(r)),
        )
    }
}

/// The store of a segment tree's nodes, made by a factory.
pub struct SegTreeStore<V, M, const B: usize, F: RefStoreFactory<SegNode<V, M, B, <F as StoreRef>::Ref>>> {
    nodes: F::Store,
}

impl<V, M, const B: usize, Fa: RefStoreFactory<SegNode<V, M, B, <Fa as StoreRef>::Ref>>> SegTreeStore<V, M, B, Fa> {
    /// The store of the nodes.
    pub closed spec fn spec_nodes(&self) -> Fa::Store {
        self.nodes
    }

    /// A store with the factory's fresh store of nodes.
    pub fn new(factory: Fa) -> (r: Self)
        ensures
            factory.spec_unbounded_stores() ==> !r.spec_nodes().spec_bounded(),
            factory.spec_unbounded_stores() ==> !RefStore::<SegNode<V, M, B, <Fa as StoreRef>::Ref>, <Fa as StoreRef>::Ref>::spec_bounded(&r),
            RefStore::<SegNode<V, M, B, <Fa as StoreRef>::Ref>, <Fa as StoreRef>::Ref>::spec_bounded(&r) ==> RefStore::<SegNode<V, M, B, <Fa as StoreRef>::Ref>, <Fa as StoreRef>::Ref>::spec_room(&r) == factory.spec_store_room(),
            r.spec_nodes().spec_fresh_refs(),
    {
        SegTreeStore { nodes: factory.store() }
    }
}

impl<V, M, const B: usize> Default for SegTreeStore<V, M, B, RcStoreFactory> {
    fn default() -> (r: Self)
        ensures
            !r.spec_nodes().spec_bounded(),
            r.spec_nodes().spec_fresh_refs(),
    {
        SegTreeStore::new(RcStoreFactory)
    }
}

impl<V, M, const B: usize, Fa: RefStoreFactory<SegNode<V, M, B, <Fa as StoreRef>::Ref>>> StoreRef for SegTreeStore<V, M, B, Fa> {
    type Ref = <Fa as StoreRef>::Ref;
}

impl<V, M, const B: usize, Fa: RefStoreFactory<SegNode<V, M, B, <Fa as StoreRef>::Ref>>> RefStore<
    SegNode<V, M, B, <Fa as StoreRef>::Ref>,
    <Fa as StoreRef>::Ref,
> for SegTreeStore<V, M, B, Fa> {
    closed spec fn spec_contains(&self, r: <Fa as StoreRef>::Ref) -> bool {
        self.nodes.spec_contains(r)
    }

    closed spec fn spec_get(&self, r: <Fa as StoreRef>::Ref) -> SegNode<V, M, B, <Fa as StoreRef>::Ref> {
        self.nodes.spec_get(r)
    }

    closed spec fn spec_bounded(&self) -> bool {
        self.nodes.spec_bounded()
    }

    closed spec fn spec_room(&self) -> nat {
        self.nodes.spec_room()
    }

    closed spec fn spec_fresh_refs(&self) -> bool {
        self.nodes.spec_fresh_refs()
    }

    fn allocate(&mut self, value: SegNode<V, M, B, <Fa as StoreRef>::Ref>) -> (r: <Fa as StoreRef>::Ref) {
        self.nodes.allocate(value)
    }

    fn read(&self, r: &<Fa as StoreRef>::Ref) -> (t: SegNode<V, M, B, <Fa as StoreRef>::Ref>)
        where SegNode<V, M, B, <Fa as StoreRef>::Ref>: Duplicate,
    {
        self.nodes.read(r)
    }

    fn with_ref<U, F: FnOnce(&SegNode<V, M, B, <Fa as StoreRef>::Ref>) -> U>(&self, reference: &<Fa as StoreRef>::Ref, f: F) -> (u: U)
        where SegNode<V, M, B, <Fa as StoreRef>::Ref>: Duplicate,
    {
        self.nodes.with_ref(reference, f)
    }
}

impl<V, M, const B: usize, Fa: RefStoreFactory<SegNode<V, M, B, <Fa as StoreRef>::Ref>>> RefStoreMut<
    SegNode<V, M, B, <Fa as StoreRef>::Ref>,
    <Fa as StoreRef>::Ref,
> for SegTreeStore<V, M, B, Fa> where Fa::Store: RefStoreMut<SegNode<V, M, B, <Fa as StoreRef>::Ref>, <Fa as StoreRef>::Ref> {
    fn set_ref(&mut self, reference: &<Fa as StoreRef>::Ref, value: SegNode<V, M, B, <Fa as StoreRef>::Ref>) {
        self.nodes.set_ref(reference, value)
    }

    fn replace_ref(&mut self, reference: &<Fa as StoreRef>::Ref, value: SegNode<V, M, B, <Fa as StoreRef>::Ref>) -> (previous: SegNode<V, M, B, <Fa as StoreRef>::Ref>) {
        self.nodes.replace_ref(reference, value)
    }
}

impl<'base, V: Semigroup, M: Semigroup, const B: usize> SegTreeStore<V, M, B, ArenaStoreFactory<'base>> {
    /// Runs `f` with a layered store that reads this store and allocates in a scratch arena
    /// of `capacity` initial slots.
    pub fn layered<'store, T, G>(&'store self, capacity: usize, f: G) -> (r: T)
        where G: for<'scratch> FnOnce(LayeredArenaSegTreeStore<'store, 'base, 'scratch, V, M, B>) -> T,
        requires
            forall|s: LayeredArenaSegTreeStore<'store, 'base, '_, V, M, B>| #[trigger] s.spec_layered_over(self) ==> f.requires((s,)),
        ensures
            exists|s: LayeredArenaSegTreeStore<'store, 'base, '_, V, M, B>| #[trigger] s.spec_layered_over(self) && f.ensures((s,), r),
    {
        let factory = LayeredArenaStoreFactory::new(self, capacity);
        let store = SegTreeStore { nodes: factory.store_with_capacity(capacity) };
        assert(store.spec_layered_over(self));
        f(store)
    }
}

impl<'store, 'base, 'scratch, V: Semigroup, M: Semigroup, const B: usize> LayeredArenaSegTreeStore<'store, 'base, 'scratch, V, M, B> {
    /// This store reads `base` and has allocated nothing of its own yet.
    pub closed spec fn spec_layered_over(&self, base: &SegTreeStore<V, M, B, ArenaStoreFactory<'base>>) -> bool {
        &&& self.nodes.spec_base() == base
        &&& forall|q: ArenaRef<'scratch>| !self.nodes.spec_scratch().spec_contains(q)
        &&& !self.nodes.spec_scratch().spec_bounded()
        &&& self.nodes.spec_scratch().spec_fresh_refs()
    }

    /// The base store.
    pub closed spec fn spec_base(&self) -> &'store SegTreeStore<V, M, B, ArenaStoreFactory<'base>> {
        self.nodes.spec_base()
    }
}


/// A node of a base arena, read as a node of a layered store over it.
pub open spec fn base_node<'base, 'scratch, V: Semigroup, M: Semigroup, const B: usize>(
    node: SegNode<V, M, B, ArenaRef<'base>>,
) -> SegNode<V, M, B, LayeredRef<ArenaRef<'base>, ArenaRef<'scratch>>> {
    node.spec_map_refs(|r: ArenaRef<'base>| base_ref(r))
}

impl<'store, 'base, 'scratch, V: Monoid, M: Applier<V> + Monoid + Clone, const B: usize> LayeredArenaSegTreeStore<'store, 'base, 'scratch, V, M, B> {
    /// A base node read through this store means what it means in the base store.
    proof fn lemma_from_base_node(&self, node: SegNode<V, M, B, ArenaRef<'base>>, size: nat)
        requires
            node.wf_in(*self.spec_base(), size),
        ensures
            node.spec_map_refs(|r: ArenaRef<'base>| base_ref(r)).wf_in(*self, size),
            node.spec_map_refs(|r: ArenaRef<'base>| base_ref(r)).seq_in(*self, size) == node.seq_in(*self.spec_base(), size),
            forall|q: LayeredRef<ArenaRef<'base>, ArenaRef<'scratch>>| #[trigger] base_node::<V, M, B>(node).refs_in(*self, size).contains(q)
                ==> q is Base && node.refs_in(*self.spec_base(), size).contains(q->Base_0),
            forall|r: ArenaRef<'base>| #[trigger] node.refs_in(*self.spec_base(), size).contains(r)
                ==> base_node::<V, M, B>(node).refs_in(*self, size).contains(LayeredRef::Base(r)),
            base_node::<V, M, B>(node).unique_in(*self, size) == node.unique_in(*self.spec_base(), size),
        decreases size,
    {
        let g = |r: ArenaRef<'base>| base_ref(r);
        let base = *self.spec_base();
        self.nodes.lemma_layers::<SegNode<V, M, B, LayeredRef<ArenaRef<'base>, ArenaRef<'scratch>>>, ArenaRef<'base>, ArenaRef<'scratch>>();
        if let SegNode::Branch { left_size, left, right, .. } = node {
            let ls = left_size as nat;
            let rs = (size - left_size) as nat;
            self.lemma_from_base_node(base.spec_get(left), ls);
            self.lemma_from_base_node(base.spec_get(right), rs);
            assert(self.spec_get(g(left)) == base.spec_get(left).spec_map_refs(g));
            assert(self.spec_get(g(right)) == base.spec_get(right).spec_map_refs(g));
            let mn = base_node::<V, M, B>(node);
            let ml = base_node::<V, M, B>(base.spec_get(left));
            let mr = base_node::<V, M, B>(base.spec_get(right));
            assert(mn.refs_in(*self, size) == set![g(left), g(right)] + ml.refs_in(*self, ls) + mr.refs_in(*self, rs));
            assert(node.refs_in(base, size) == set![left, right] + base.spec_get(left).refs_in(base, ls) + base.spec_get(right).refs_in(base, rs));
            assert forall|q: LayeredRef<ArenaRef<'base>, ArenaRef<'scratch>>| #[trigger] mn.refs_in(*self, size).contains(q)
                implies q is Base && node.refs_in(base, size).contains(q->Base_0) by {
                if ml.refs_in(*self, ls).contains(q) {
                } else if mr.refs_in(*self, rs).contains(q) {
                }
            }
            assert forall|r: ArenaRef<'base>| #[trigger] node.refs_in(base, size).contains(r)
                implies mn.refs_in(*self, size).contains(LayeredRef::Base(r)) by {
                if base.spec_get(left).refs_in(base, ls).contains(r) {
                    assert(ml.refs_in(*self, ls).contains(LayeredRef::Base(r)));
                } else if base.spec_get(right).refs_in(base, rs).contains(r) {
                    assert(mr.refs_in(*self, rs).contains(LayeredRef::Base(r)));
                }
            }
        }
    }

    /// The tree of the base store, as a tree of this store.
    pub fn from_base(&self, tree: &SegTree<V, M, B, ArenaRef<'base>>) -> (r: SegTree<V, M, B, LayeredRef<ArenaRef<'base>, ArenaRef<'scratch>>>)
        requires
            tree.wf_in(*self.spec_base()),
        ensures
            r.wf_in(*self),
            r.spec_len() == tree.spec_len(),
            r.seq_in(*self) == tree.seq_in(*self.spec_base()),
            r.unique_in(*self) == tree.unique_in(*self.spec_base()),
    {
        let r = tree.map_refs(
            &to_base_ref,
            Ghost(|r: ArenaRef<'base>| base_ref(r)),
        );
        proof {
            self.lemma_from_base_node(tree.root, tree.len as nat);
        }
        r
    }
}

/// The smallest capacity of at least one that fits items of `one_size - zero_size` bytes
/// each into `target_bytes`, after a fixed part of `zero_size` bytes.
pub open spec fn spec_capacity_for_linear_size(zero_size: int, one_size: int, target_bytes: int) -> int {
    let item_size = if one_size > zero_size { one_size - zero_size } else { 0 };
    if item_size == 0 {
        if target_bytes == 0 { 1 } else { target_bytes }
    } else {
        let payload = if target_bytes > zero_size { target_bytes - zero_size } else { 0 };
        let capacity = payload / item_size;
        if capacity == 0 { 1 } else { capacity }
    }
}

fn capacity_for_linear_size(zero_size: usize, one_size: usize, target_bytes: usize) -> (r: usize)
    ensures
        r == spec_capacity_for_linear_size(zero_size as int, one_size as int, target_bytes as int),
{
    let item_size = one_size.saturating_sub(zero_size);
    if item_size == 0 {
        if target_bytes == 0 {
            1
        } else {
            target_bytes
        }
    } else {
        let payload = target_bytes.saturating_sub(zero_size);
        let capacity = payload / item_size;
        if capacity == 0 {
            1
        } else {
            capacity
        }
    }
}

#[allow(dead_code)]
struct SegBranchLayout<V, M, Ref> {
    left_size: usize,
    modifier: M,
    value: V,
    left: Ref,
    right: Ref,
}

#[allow(dead_code)]
enum SegNodeLayout<V, M, Ref, const B: usize> {
    Empty,
    Block(SegBlock<V, B>),
    Branch(SegBranchLayout<V, M, Ref>),
}

#[allow(dead_code)]
enum SegBlockNodeLayout<V, M, Ref, const B: usize> {
    Empty,
    Block(SegBlock<V, B>),
    // A zero-length array adds no payload but keeps the branch payload's alignment.
    Branch([SegBranchLayout<V, M, Ref>; 0]),
}

/// The size in bytes of a branch node of a segment tree of `V` and `M` whose references are
/// `Ref`.
pub closed spec fn spec_branch_node_bytes<V, M, Ref>() -> int {
    vstd::layout::size_of::<SegNodeLayout<V, M, Ref, 0>>() as int
}

/// The size in bytes of a leaf node of such a tree whose block holds `items` values, for no
/// value and for one value.
pub closed spec fn spec_block_node_bytes<V, M, Ref>(items: int) -> int {
    if items == 0 {
        vstd::layout::size_of::<SegBlockNodeLayout<V, M, Ref, 0>>() as int
    } else {
        vstd::layout::size_of::<SegBlockNodeLayout<V, M, Ref, 1>>() as int
    }
}

/// How many leaf values a block holds so that a leaf node is about `target_bytes` large, and
/// never smaller than a branch node: the per-item growth comes from the real layouts of blocks
/// of zero and one item.
pub fn seg_block_capacity_for_bytes<V, M, Ref>(target_bytes: usize) -> (r: usize)
    ensures
        r == spec_capacity_for_linear_size(
            spec_block_node_bytes::<V, M, Ref>(0),
            spec_block_node_bytes::<V, M, Ref>(1),
            if (target_bytes as int) < spec_branch_node_bytes::<V, M, Ref>() {
                spec_branch_node_bytes::<V, M, Ref>()
            } else {
                target_bytes as int
            },
        ),
{
    let branch_size = core::mem::size_of::<SegNodeLayout<V, M, Ref, 0>>();
    let target = if target_bytes < branch_size {
        branch_size
    } else {
        target_bytes
    };
    capacity_for_linear_size(
        core::mem::size_of::<SegBlockNodeLayout<V, M, Ref, 0>>(),
        core::mem::size_of::<SegBlockNodeLayout<V, M, Ref, 1>>(),
        target,
    )
}

} // verus!
