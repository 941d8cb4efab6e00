use crate::data_structure::ref_store::{
    lemma_store_extends_refl, lemma_store_extends_trans, store_extends, ArcStoreFactory, ArenaRef, ArenaStoreFactory, ConstArenaStoreFactory, Duplicate,
    LayeredArenaStoreFactory, LayeredRef, RcStoreFactory, RefMapper, RefStore, RefStoreFactory,
    StoreRef,
};
use crate::traits::monoid::{fold, lemma_fold_concat, lemma_fold_singleton, Monoid, Size};
use crate::traits::semigroup::Semigroup;
use std::marker::PhantomData;
use vstd::prelude::*;

mod chunk;
pub mod prelude;
mod raw;
mod store;

pub use self::chunk::{chunk_capacity_for_bytes, Chunk, FingerTree, CACHE_LINE_BYTES};
pub use self::raw::RawFingerTree;
pub use self::store::{
    FingerTreeLayerMapper, FingerTreeStore, FingerTreeStoreFactory, LayeredArenaFingerTreeFactory,
    LayeredArenaFingerTreeStore,
};

verus! {

/// A value with a monoidal measure; a finger tree caches the merged measure of each subtree.
pub trait Measured: Duplicate {
    type Measure: Monoid;

    spec fn spec_measure(&self) -> Self::Measure;

    fn measure(&self) -> (r: Self::Measure)
        ensures
            r == self.spec_measure(),
    ;
}

/// An element whose measure is a count of one.
#[derive(Clone, PartialEq, Eq, Debug)]
pub struct Value<T>(pub T);

impl<T: Duplicate> Duplicate for Value<T> {
    fn duplicate(&self) -> (r: Self) {
        Value(self.0.duplicate())
    }
}

impl<T: Duplicate> Measured for Value<T> {
    type Measure = Size;

    open spec fn spec_measure(&self) -> Size {
        Size(1)
    }

    fn measure(&self) -> (r: Size) {
        Size(1)
    }
}

impl Duplicate for u8 {
    fn duplicate(&self) -> (r: Self) {
        *self
    }
}

impl Duplicate for u32 {
    fn duplicate(&self) -> (r: Self) {
        *self
    }
}

impl Duplicate for u64 {
    fn duplicate(&self) -> (r: Self) {
        *self
    }
}

impl Duplicate for usize {
    fn duplicate(&self) -> (r: Self) {
        *self
    }
}

impl Duplicate for i32 {
    fn duplicate(&self) -> (r: Self) {
        *self
    }
}

impl Duplicate for i64 {
    fn duplicate(&self) -> (r: Self) {
        *self
    }
}

impl Duplicate for char {
    fn duplicate(&self) -> (r: Self) {
        *self
    }
}

impl Duplicate for bool {
    fn duplicate(&self) -> (r: Self) {
        *self
    }
}

/// The merged measure of a sequence of elements.
pub open spec fn measure_of<A: Measured>(s: Seq<A>) -> A::Measure {
    fold(s.map_values(|a: A| a.spec_measure()))
}

/// The measure of a concatenation merges the measures of its parts.
pub proof fn lemma_measure_concat<A: Measured>(a: Seq<A>, b: Seq<A>)
    ensures
        measure_of(a + b) == measure_of(a).spec_merge(measure_of(b)),
{
    assert((a + b).map_values(|x: A| x.spec_measure()) =~= a.map_values(|x: A| x.spec_measure()) + b.map_values(|x: A| x.spec_measure()));
    lemma_fold_concat(a.map_values(|x: A| x.spec_measure()), b.map_values(|x: A| x.spec_measure()));
}

/// The measure of one element is its own measure.
pub proof fn lemma_measure_single<A: Measured>(a: A)
    ensures
        measure_of(seq![a]) == a.spec_measure(),
{
    assert(seq![a].map_values(|x: A| x.spec_measure()) =~= seq![a.spec_measure()]);
    lemma_fold_singleton(a.spec_measure());
}

/// The measure of no elements is `empty`.
pub proof fn lemma_measure_empty<A: Measured>()
    ensures
        measure_of(Seq::<A>::empty()) == A::Measure::spec_empty(),
{
    assert(Seq::<A>::empty().map_values(|x: A| x.spec_measure()) =~= Seq::<A::Measure>::empty());
}

/// One to four items at either end of a finger tree level.
#[derive(Clone, Copy)]
pub enum Digit<T> {
    One(T),
    Two(T, T),
    Three(T, T, T),
    Four(T, T, T, T),
}

impl<T> Digit<T> {
    /// The items, in order.
    pub open spec fn items(self) -> Seq<T> {
        match self {
            Digit::One(a) => seq![a],
            Digit::Two(a, b) => seq![a, b],
            Digit::Three(a, b, c) => seq![a, b, c],
            Digit::Four(a, b, c, d) => seq![a, b, c, d],
        }
    }

    /// The digit holding `s`, for one to four items.
    pub open spec fn from_items(s: Seq<T>) -> Self
        recommends
            1 <= s.len() <= 4,
    {
        if s.len() == 1 {
            Digit::One(s[0])
        } else if s.len() == 2 {
            Digit::Two(s[0], s[1])
        } else if s.len() == 3 {
            Digit::Three(s[0], s[1], s[2])
        } else {
            Digit::Four(s[0], s[1], s[2], s[3])
        }
    }

    pub proof fn lemma_items_len(self)
        ensures
            1 <= self.items().len() <= 4,
    {
    }

    pub proof fn lemma_from_items(s: Seq<T>)
        requires
            1 <= s.len() <= 4,
        ensures
            Self::from_items(s).items() == s,
    {
        assert(Self::from_items(s).items() =~= s);
    }
}

impl<T: Copy> Digit<T> {
    fn first(&self) -> (r: T)
        ensures
            r == self.items()[0],
    {
        match self {
            Digit::One(a) => *a,
            Digit::Two(a, _) => *a,
            Digit::Three(a, _, _) => *a,
            Digit::Four(a, _, _, _) => *a,
        }
    }

    fn last(&self) -> (r: T)
        ensures
            r == self.items().last(),
    {
        match self {
            Digit::One(a) => *a,
            Digit::Two(_, b) => *b,
            Digit::Three(_, _, c) => *c,
            Digit::Four(_, _, _, d) => *d,
        }
    }

    fn is_full(&self) -> (r: bool)
        ensures
            r == (self.items().len() == 4),
    {
        matches!(self, Digit::Four(..))
    }

    fn push_front(self, value: T) -> (r: Self)
        requires
            self.items().len() < 4,
        ensures
            r.items() == seq![value] + self.items(),
    {
        let r = match self {
            Digit::One(a) => Digit::Two(value, a),
            Digit::Two(a, b) => Digit::Three(value, a, b),
            Digit::Three(a, b, c) => Digit::Four(value, a, b, c),
            Digit::Four(a, b, c, d) => Digit::Four(a, b, c, d),
        };
        assert(r.items() =~= seq![value] + self.items());
        r
    }

    fn push_back(self, value: T) -> (r: Self)
        requires
            self.items().len() < 4,
        ensures
            r.items() == self.items().push(value),
    {
        let r = match self {
            Digit::One(a) => Digit::Two(a, value),
            Digit::Two(a, b) => Digit::Three(a, b, value),
            Digit::Three(a, b, c) => Digit::Four(a, b, c, value),
            Digit::Four(a, b, c, d) => Digit::Four(a, b, c, d),
        };
        assert(r.items() =~= self.items().push(value));
        r
    }

    fn prepend_to_option(value: T, digit: Option<Self>) -> (r: Self)
        requires
            digit.is_some() ==> digit.unwrap().items().len() < 4,
        ensures
            r.items() == seq![value] + match digit {
                Some(d) => d.items(),
                None => Seq::empty(),
            },
    {
        match digit {
            Some(digit) => digit.push_front(value),
            None => {
                let r = Digit::One(value);
                assert(r.items() =~= seq![value] + Seq::<T>::empty());
                r
            }
        }
    }

    fn view_front(self) -> (r: (T, Option<Self>))
        ensures
            self.items() == seq![r.0] + match r.1 {
                Some(d) => d.items(),
                None => Seq::empty(),
            },
    {
        let r = match self {
            Digit::One(a) => (a, None),
            Digit::Two(a, b) => (a, Some(Digit::One(b))),
            Digit::Three(a, b, c) => (a, Some(Digit::Two(b, c))),
            Digit::Four(a, b, c, d) => (a, Some(Digit::Three(b, c, d))),
        };
        proof {
            match r.1 {
                Some(d) => assert(self.items() =~= seq![r.0] + d.items()),
                None => assert(self.items() =~= seq![r.0] + Seq::<T>::empty()),
            }
        }
        r
    }

    fn view_back(self) -> (r: (Option<Self>, T))
        ensures
            self.items() == match r.0 {
                Some(d) => d.items(),
                None => Seq::empty(),
            }.push(r.1),
    {
        let r = match self {
            Digit::One(a) => (None, a),
            Digit::Two(a, b) => (Some(Digit::One(a)), b),
            Digit::Three(a, b, c) => (Some(Digit::Two(a, b)), c),
            Digit::Four(a, b, c, d) => (Some(Digit::Three(a, b, c)), d),
        };
        proof {
            match r.0 {
                Some(d) => assert(self.items() =~= d.items().push(r.1)),
                None => assert(self.items() =~= Seq::<T>::empty().push(r.1)),
            }
        }
        r
    }
}

/// The items of an optional digit; none for `None`.
pub open spec fn opt_items<T>(d: Option<Digit<T>>) -> Seq<T> {
    match d {
        Some(d) => d.items(),
        None => Seq::empty(),
    }
}

/// A node of a finger tree: a leaf holding one element, or a branch of two or three nodes
/// one level down.
pub struct Node<A: Measured, Rf> {
    measure: A::Measure,
    inner: NodeInner<A, Rf>,
}

pub enum NodeInner<A, Rf> {
    Leaf(A),
    Branch2 { left: Rf, right: Rf },
    Branch3 { left: Rf, middle: Rf, right: Rf },
}

/// One level of a finger tree: empty, a single node, or two digits around a deeper tree
/// of branch nodes.
pub struct Tree<A: Measured, Rf>(TreeInner<A, Rf>);

pub enum TreeInner<A: Measured, Rf> {
    Empty,
    Single { measure: A::Measure, node: Rf },
    Deep { measure: A::Measure, prefix: Digit<Rf>, deeper: Rf, suffix: Digit<Rf>, height: Ghost<nat> },
}

impl<A: Measured, Rf: Copy> Duplicate for Node<A, Rf> {
    fn duplicate(&self) -> (r: Self) {
        let inner = match &self.inner {
            NodeInner::Leaf(a) => NodeInner::Leaf(a.duplicate()),
            NodeInner::Branch2 { left, right } => NodeInner::Branch2 { left: *left, right: *right },
            NodeInner::Branch3 { left, middle, right } => NodeInner::Branch3 { left: *left, middle: *middle, right: *right },
        };
        Node { measure: self.measure.duplicate(), inner }
    }
}

impl<A: Measured, Rf: Copy> Duplicate for Tree<A, Rf> {
    fn duplicate(&self) -> (r: Self) {
        Tree(
            match &self.0 {
                TreeInner::Empty => TreeInner::Empty,
                TreeInner::Single { measure, node } => TreeInner::Single { measure: measure.duplicate(), node: *node },
                TreeInner::Deep { measure, prefix, deeper, suffix, height } => TreeInner::Deep {
                    measure: measure.duplicate(),
                    prefix: *prefix,
                    deeper: *deeper,
                    suffix: *suffix,
                    height: *height,
                },
            },
        )
    }
}

/// The node store holds `r`.
pub open spec fn has_node<A: Measured, Rf, R: RefStore<Node<A, Rf>, Rf>>(refs: R, r: Rf) -> bool {
    <R as RefStore<Node<A, Rf>, Rf>>::spec_contains(&refs, r)
}

/// The node behind `r`.
pub open spec fn get_node<A: Measured, Rf, R: RefStore<Node<A, Rf>, Rf>>(refs: R, r: Rf) -> Node<A, Rf> {
    <R as RefStore<Node<A, Rf>, Rf>>::spec_get(&refs, r)
}

/// The tree store holds `r`.
pub open spec fn has_tree<A: Measured, Rf, R: RefStore<Tree<A, Rf>, Rf>>(refs: R, r: Rf) -> bool {
    <R as RefStore<Tree<A, Rf>, Rf>>::spec_contains(&refs, r)
}

/// The tree level behind `r`.
pub open spec fn get_tree<A: Measured, Rf, R: RefStore<Tree<A, Rf>, Rf>>(refs: R, r: Rf) -> Tree<A, Rf> {
    <R as RefStore<Tree<A, Rf>, Rf>>::spec_get(&refs, r)
}

/// `new` keeps every node and tree level of `old`.
pub open spec fn refs_extend<A: Measured, Rf, R: RefStore<Node<A, Rf>, Rf> + RefStore<Tree<A, Rf>, Rf>>(new: R, old: R) -> bool {
    &&& store_extends::<Node<A, Rf>, Rf, R>(new, old)
    &&& store_extends::<Tree<A, Rf>, Rf, R>(new, old)
}

/// Each of the two stores can take `k` more values.
pub open spec fn room_for<A: Measured, Rf, R: RefStore<Node<A, Rf>, Rf> + RefStore<Tree<A, Rf>, Rf>>(refs: R, k: nat) -> bool {
    &&& <R as RefStore<Node<A, Rf>, Rf>>::spec_bounded(&refs) ==> <R as RefStore<Node<A, Rf>, Rf>>::spec_room(&refs) >= k
    &&& <R as RefStore<Tree<A, Rf>, Rf>>::spec_bounded(&refs) ==> <R as RefStore<Tree<A, Rf>, Rf>>::spec_room(&refs) >= k
}

/// Going from `old` to `new` took at most `k` values of room from each of the two stores.
pub open spec fn spent<A: Measured, Rf, R: RefStore<Node<A, Rf>, Rf> + RefStore<Tree<A, Rf>, Rf>>(new: R, old: R, k: nat) -> bool {
    &&& <R as RefStore<Node<A, Rf>, Rf>>::spec_bounded(&old) ==> <R as RefStore<Node<A, Rf>, Rf>>::spec_room(&new) + k
        >= <R as RefStore<Node<A, Rf>, Rf>>::spec_room(&old)
    &&& <R as RefStore<Tree<A, Rf>, Rf>>::spec_bounded(&old) ==> <R as RefStore<Tree<A, Rf>, Rf>>::spec_room(&new) + k
        >= <R as RefStore<Tree<A, Rf>, Rf>>::spec_room(&old)
}

/// The room that splitting a tree level of height `h` may take from each store.
pub open spec fn split_room(h: nat) -> nat {
    5 * h * h + 50 * h + 40
}

/// A bound on the heights of the two trees that splitting a tree level of height `h` gives.
pub open spec fn split_height(h: nat) -> nat {
    5 * h + 5
}

/// Building a tree of up to four nodes takes at most sixteen values of room.
proof fn lemma_small_room(n: nat)
    requires
        n <= 4,
    ensures
        n * n <= 16,
{
    assert(n * n <= 16) by (nonlinear_arith)
        requires
            n <= 4,
    ;
}

/// The room that joining tree levels of heights `h1` and `h2` around up to eight middle
/// nodes may take from each store.
pub open spec fn concat_room(h1: nat, h2: nat) -> nat {
    18 * (h1 + h2) + 160
}

/// A bound on the height of the tree level that joining levels of heights `h1` and `h2`
/// gives.
pub open spec fn concat_height(h1: nat, h2: nat) -> nat {
    h1 + h2 + 9
}

/// Pushing up to eight nodes, one after the other, onto a tree level of height `h`.
proof fn lemma_push_budget(k: nat, h: nat)
    requires
        k <= 8,
    ensures
        k * (2 * h + 17) <= 16 * h + 136,
        k * (2 * h + 17) + (2 * h + 17) == (k + 1) * (2 * h + 17),
{
    assert(k * (2 * h + 17) <= 16 * h + 136) by (nonlinear_arith)
        requires
            k <= 8,
    ;
    assert(k * (2 * h + 17) + (2 * h + 17) == (k + 1) * (2 * h + 17)) by (nonlinear_arith);
}

/// Splitting one level down and rebuilding around it stays within the room of the level.
proof fn lemma_split_room(g: nat, h: nat)
    requires
        g < h,
    ensures
        split_room(g) + 2 * (split_height(g) + 18) <= split_room(h),
        split_height(g) + 5 <= split_height(h),
        h + 32 <= split_room(h),
        h + 4 <= split_height(h),
{
    assert(5 * g * g + 50 * g + 40 + 2 * (5 * g + 5 + 18) <= 5 * h * h + 50 * h + 40) by (nonlinear_arith)
        requires
            g < h,
    ;
}

/// The room that building a tree of up to four nodes one after the other takes.
proof fn lemma_digit_room(n: nat)
    requires
        1 <= n <= 4,
    ensures
        n * n <= 16,
        ((n - 1) * (n - 1)) as nat + 2 * (n - 1) + 1 == n * n,
{
    assert(n * n <= 16) by (nonlinear_arith)
        requires
            n <= 4,
    ;
    assert(((n - 1) * (n - 1)) + 2 * (n - 1) + 1 == n * n) by (nonlinear_arith);
}

/// The room that building a tree by `p` pushes, one after the other, onto an empty tree may
/// take from each store.
pub open spec fn build_room(p: nat) -> nat {
    if p == 0 {
        0
    } else {
        (p * p - p + 2) as nat
    }
}

/// One more push, onto a tree built by `p` pushes, stays within the room of `n` pushes.
proof fn lemma_build_step(p: nat, n: nat)
    requires
        p < n,
    ensures
        build_room(p) + 2 * (if p == 0 { 0 } else { p - 1 }) + 2 == build_room(p + 1),
        build_room(p + 1) <= build_room(n),
{
    assert(p * p - p + 2 + 2 * (p - 1) + 2 == (p + 1) * (p + 1) - (p + 1) + 2) by (nonlinear_arith);
    assert((p + 1) * (p + 1) - (p + 1) <= n * n - n) by (nonlinear_arith)
        requires
            p < n,
    ;
    assert(p * p - p >= 0) by (nonlinear_arith);
    assert(n * n - n >= 0) by (nonlinear_arith)
        requires
            p < n,
    ;
}

/// Fewer pushes take no more room.
proof fn lemma_build_monotone(p: nat, n: nat)
    requires
        p <= n,
    ensures
        build_room(p) <= build_room(n),
{
    if p < n {
        lemma_build_step(p, n);
    }
}

/// Both stores can take any number of values.
pub open spec fn unbounded<A: Measured, Rf, R: RefStore<Node<A, Rf>, Rf> + RefStore<Tree<A, Rf>, Rf>>(refs: R) -> bool {
    &&& !<R as RefStore<Node<A, Rf>, Rf>>::spec_bounded(&refs)
    &&& !<R as RefStore<Tree<A, Rf>, Rf>>::spec_bounded(&refs)
}

impl<A: Measured, Rf> Node<A, Rf> {
    pub closed spec fn spec_node_measure(self) -> A::Measure {
        self.measure
    }

    /// The elements below a node of level `d`; leaves are at level 0.
    pub closed spec fn seq_in<R: RefStore<Node<A, Rf>, Rf>>(self, refs: R, d: nat) -> Seq<A>
        decreases d,
    {
        match self.inner {
            NodeInner::Leaf(a) => if d == 0 { seq![a] } else { Seq::empty() },
            NodeInner::Branch2 { left, right } => if d > 0 {
                get_node::<A, Rf, R>(refs, left).seq_in(refs, (d - 1) as nat) + get_node::<A, Rf, R>(refs, right).seq_in(refs, (d - 1) as nat)
            } else {
                Seq::empty()
            },
            NodeInner::Branch3 { left, middle, right } => if d > 0 {
                get_node::<A, Rf, R>(refs, left).seq_in(refs, (d - 1) as nat) + get_node::<A, Rf, R>(refs, middle).seq_in(refs, (d - 1) as nat)
                    + get_node::<A, Rf, R>(refs, right).seq_in(refs, (d - 1) as nat)
            } else {
                Seq::empty()
            },
        }
    }

    /// A node of level `d`: leaves exactly at level 0, children one level down, and the
    /// cached measure is the measure of its elements.
    pub closed spec fn wf_in<R: RefStore<Node<A, Rf>, Rf>>(self, refs: R, d: nat) -> bool
        decreases d,
    {
        &&& self.measure == measure_of(self.seq_in(refs, d))
        &&& match self.inner {
            NodeInner::Leaf(a) => d == 0,
            NodeInner::Branch2 { left, right } => {
                &&& d > 0
                &&& has_node::<A, Rf, R>(refs, left) && has_node::<A, Rf, R>(refs, right)
                &&& get_node::<A, Rf, R>(refs, left).wf_in(refs, (d - 1) as nat)
                &&& get_node::<A, Rf, R>(refs, right).wf_in(refs, (d - 1) as nat)
            },
            NodeInner::Branch3 { left, middle, right } => {
                &&& d > 0
                &&& has_node::<A, Rf, R>(refs, left) && has_node::<A, Rf, R>(refs, middle) && has_node::<A, Rf, R>(refs, right)
                &&& get_node::<A, Rf, R>(refs, left).wf_in(refs, (d - 1) as nat)
                &&& get_node::<A, Rf, R>(refs, middle).wf_in(refs, (d - 1) as nat)
                &&& get_node::<A, Rf, R>(refs, right).wf_in(refs, (d - 1) as nat)
            },
        }
    }

    pub proof fn lemma_extends<R: RefStore<Node<A, Rf>, Rf>>(self, a: R, b: R, d: nat)
        requires
            self.wf_in(a, d),
            store_extends::<Node<A, Rf>, Rf, R>(b, a),
        ensures
            self.wf_in(b, d),
            self.seq_in(b, d) == self.seq_in(a, d),
        decreases d,
    {
        match self.inner {
            NodeInner::Leaf(_) => {},
            NodeInner::Branch2 { left, right } => {
                get_node::<A, Rf, R>(a, left).lemma_extends(a, b, (d - 1) as nat);
                get_node::<A, Rf, R>(a, right).lemma_extends(a, b, (d - 1) as nat);
            },
            NodeInner::Branch3 { left, middle, right } => {
                get_node::<A, Rf, R>(a, left).lemma_extends(a, b, (d - 1) as nat);
                get_node::<A, Rf, R>(a, middle).lemma_extends(a, b, (d - 1) as nat);
                get_node::<A, Rf, R>(a, right).lemma_extends(a, b, (d - 1) as nat);
            },
        }
    }

    /// A node has at least one element.
    pub proof fn lemma_nonempty<R: RefStore<Node<A, Rf>, Rf>>(self, refs: R, d: nat)
        requires
            self.wf_in(refs, d),
        ensures
            self.seq_in(refs, d).len() > 0,
        decreases d,
    {
        match self.inner {
            NodeInner::Leaf(_) => {},
            NodeInner::Branch2 { left, right } => {
                get_node::<A, Rf, R>(refs, left).lemma_nonempty(refs, (d - 1) as nat);
            },
            NodeInner::Branch3 { left, middle, right } => {
                get_node::<A, Rf, R>(refs, left).lemma_nonempty(refs, (d - 1) as nat);
            },
        }
    }
}

/// The elements below a sequence of nodes of level `d`.
pub open spec fn nodes_seq<A: Measured, Rf, R: RefStore<Node<A, Rf>, Rf>>(refs: R, rs: Seq<Rf>, d: nat) -> Seq<A>
    decreases rs.len(),
{
    if rs.len() == 0 {
        Seq::empty()
    } else {
        nodes_seq(refs, rs.drop_last(), d) + get_node::<A, Rf, R>(refs, rs.last()).seq_in(refs, d)
    }
}

/// Each reference of `rs` is a well-formed node of level `d`.
pub open spec fn nodes_wf<A: Measured, Rf, R: RefStore<Node<A, Rf>, Rf>>(refs: R, rs: Seq<Rf>, d: nat) -> bool {
    forall|i: int| 0 <= i < rs.len() ==> has_node::<A, Rf, R>(refs, #[trigger] rs[i]) && get_node::<A, Rf, R>(refs, rs[i]).wf_in(refs, d)
}

pub proof fn lemma_nodes_seq_concat<A: Measured, Rf, R: RefStore<Node<A, Rf>, Rf>>(refs: R, a: Seq<Rf>, b: Seq<Rf>, d: nat)
    ensures
        nodes_seq::<A, Rf, R>(refs, a + b, d) == nodes_seq::<A, Rf, R>(refs, a, d) + nodes_seq::<A, Rf, R>(refs, b, d),
    decreases b.len(),
{
    if b.len() == 0 {
        assert(a + b =~= a);
        assert(nodes_seq::<A, Rf, R>(refs, a, d) + nodes_seq::<A, Rf, R>(refs, b, d) =~= nodes_seq::<A, Rf, R>(refs, a, d));
    } else {
        assert((a + b).drop_last() =~= a + b.drop_last());
        lemma_nodes_seq_concat::<A, Rf, R>(refs, a, b.drop_last(), d);
        assert(nodes_seq::<A, Rf, R>(refs, a + b, d) =~= nodes_seq::<A, Rf, R>(refs, a, d) + nodes_seq::<A, Rf, R>(refs, b, d));
    }
}

pub proof fn lemma_nodes_seq_single<A: Measured, Rf, R: RefStore<Node<A, Rf>, Rf>>(refs: R, r: Rf, d: nat)
    ensures
        nodes_seq::<A, Rf, R>(refs, seq![r], d) == get_node::<A, Rf, R>(refs, r).seq_in(refs, d),
{
    assert(seq![r].drop_last() =~= Seq::<Rf>::empty());
    assert(nodes_seq::<A, Rf, R>(refs, Seq::<Rf>::empty(), d) =~= Seq::<A>::empty());
    assert(nodes_seq::<A, Rf, R>(refs, seq![r], d) =~= get_node::<A, Rf, R>(refs, r).seq_in(refs, d));
}

pub proof fn lemma_nodes_extends<A: Measured, Rf, R: RefStore<Node<A, Rf>, Rf>>(a: R, b: R, rs: Seq<Rf>, d: nat)
    requires
        nodes_wf::<A, Rf, R>(a, rs, d),
        store_extends::<Node<A, Rf>, Rf, R>(b, a),
    ensures
        nodes_wf::<A, Rf, R>(b, rs, d),
        nodes_seq::<A, Rf, R>(b, rs, d) == nodes_seq::<A, Rf, R>(a, rs, d),
    decreases rs.len(),
{
    assert forall|i: int| 0 <= i < rs.len() implies has_node::<A, Rf, R>(b, #[trigger] rs[i]) && get_node::<A, Rf, R>(b, rs[i]).wf_in(b, d) by {
        get_node::<A, Rf, R>(a, rs[i]).lemma_extends(a, b, d);
    }
    if rs.len() > 0 {
        lemma_nodes_extends::<A, Rf, R>(a, b, rs.drop_last(), d);
        get_node::<A, Rf, R>(a, rs.last()).lemma_extends(a, b, d);
    }
}

impl<A: Measured, Rf> Tree<A, Rf> {
    /// How many levels of deeper trees hang below this one.
    pub closed spec fn spec_height(self) -> nat {
        match self.0 {
            TreeInner::Deep { height, .. } => height@,
            _ => 0,
        }
    }

    pub closed spec fn spec_tree_measure(self) -> A::Measure {
        match self.0 {
            TreeInner::Empty => A::Measure::spec_empty(),
            TreeInner::Single { measure, .. } => measure,
            TreeInner::Deep { measure, .. } => measure,
        }
    }

    pub closed spec fn is_empty_tree(self) -> bool {
        self.0 is Empty
    }

    /// The elements of a tree whose nodes are of level `d`.
    pub closed spec fn seq_in<R: RefStore<Node<A, Rf>, Rf> + RefStore<Tree<A, Rf>, Rf>>(self, refs: R, d: nat) -> Seq<A>
        decreases self.spec_height(),
    {
        match self.0 {
            TreeInner::Empty => Seq::empty(),
            TreeInner::Single { node, .. } => get_node::<A, Rf, R>(refs, node).seq_in(refs, d),
            TreeInner::Deep { prefix, deeper, suffix, height, .. } => {
                let inner = get_tree::<A, Rf, R>(refs, deeper);
                if inner.spec_height() < height@ {
                    nodes_seq::<A, Rf, R>(refs, prefix.items(), d) + inner.seq_in(refs, d + 1) + nodes_seq::<A, Rf, R>(
                        refs,
                        suffix.items(),
                        d,
                    )
                } else {
                    Seq::empty()
                }
            },
        }
    }

    /// A tree whose nodes are of level `d`, with deeper trees of branch nodes one level up and
    /// cached measures that are the measures of its elements.
    pub closed spec fn wf_in<R: RefStore<Node<A, Rf>, Rf> + RefStore<Tree<A, Rf>, Rf>>(self, refs: R, d: nat) -> bool
        decreases self.spec_height(),
    {
        &&& self.spec_tree_measure() == measure_of(self.seq_in(refs, d))
        &&& match self.0 {
            TreeInner::Empty => true,
            TreeInner::Single { node, .. } => has_node::<A, Rf, R>(refs, node) && get_node::<A, Rf, R>(refs, node).wf_in(refs, d),
            TreeInner::Deep { prefix, deeper, suffix, height, .. } => {
                let inner = get_tree::<A, Rf, R>(refs, deeper);
                &&& nodes_wf::<A, Rf, R>(refs, prefix.items(), d)
                &&& nodes_wf::<A, Rf, R>(refs, suffix.items(), d)
                &&& has_tree::<A, Rf, R>(refs, deeper)
                &&& inner.spec_height() < height@
                &&& inner.wf_in(refs, d + 1)
            },
        }
    }

    pub proof fn lemma_extends<R: RefStore<Node<A, Rf>, Rf> + RefStore<Tree<A, Rf>, Rf>>(self, a: R, b: R, d: nat)
        requires
            self.wf_in(a, d),
            refs_extend::<A, Rf, R>(b, a),
        ensures
            self.wf_in(b, d),
            self.seq_in(b, d) == self.seq_in(a, d),
        decreases self.spec_height(),
    {
        match self.0 {
            TreeInner::Empty => {},
            TreeInner::Single { node, .. } => {
                get_node::<A, Rf, R>(a, node).lemma_extends(a, b, d);
            },
            TreeInner::Deep { prefix, deeper, suffix, .. } => {
                lemma_nodes_extends::<A, Rf, R>(a, b, prefix.items(), d);
                lemma_nodes_extends::<A, Rf, R>(a, b, suffix.items(), d);
                get_tree::<A, Rf, R>(a, deeper).lemma_extends(a, b, d + 1);
            },
        }
    }
}

/// A store of finger tree nodes and tree levels.
pub trait FingerTreeRefs<A: Measured, Rf: Copy>: RefStore<Node<A, Rf>, Rf> + RefStore<Tree<A, Rf>, Rf> + Sized {
    fn alloc_node(&mut self, node: Node<A, Rf>) -> (r: Rf)
        requires
            room_for::<A, Rf, Self>(*old(self), 1),
        ensures
            has_node::<A, Rf, Self>(*final(self), r),
            get_node::<A, Rf, Self>(*final(self), r) == node,
            refs_extend::<A, Rf, Self>(*final(self), *old(self)),
            spent::<A, Rf, Self>(*final(self), *old(self), 1),
    ;

    fn alloc_tree(&mut self, tree: Tree<A, Rf>) -> (r: Rf)
        requires
            room_for::<A, Rf, Self>(*old(self), 1),
        ensures
            has_tree::<A, Rf, Self>(*final(self), r),
            get_tree::<A, Rf, Self>(*final(self), r) == tree,
            refs_extend::<A, Rf, Self>(*final(self), *old(self)),
            spent::<A, Rf, Self>(*final(self), *old(self), 1),
    ;

    /// A copy of the node behind `node`.
    fn read_node(&self, node: &Rf) -> (r: Node<A, Rf>)
        requires
            has_node::<A, Rf, Self>(*self, *node),
        ensures
            r == get_node::<A, Rf, Self>(*self, *node),
    {
        <Self as RefStore<Node<A, Rf>, Rf>>::read(self, node)
    }

    /// A copy of the tree level behind `tree`.
    fn clone_tree_ref(&self, tree: &Rf) -> (r: Tree<A, Rf>)
        requires
            has_tree::<A, Rf, Self>(*self, *tree),
        ensures
            r == get_tree::<A, Rf, Self>(*self, *tree),
    {
        <Self as RefStore<Tree<A, Rf>, Rf>>::read(self, tree)
    }

    /// The cached measure of the node behind `node`.
    fn measure_node_ref(&self, node: &Rf) -> (r: A::Measure)
        requires
            has_node::<A, Rf, Self>(*self, *node),
        ensures
            r == get_node::<A, Rf, Self>(*self, *node).spec_node_measure(),
    {
        let n = self.read_node(node);
        n.measure
    }

    /// The cached measure of the tree level behind `tree`.
    fn measure_tree_ref(&self, tree: &Rf) -> (r: A::Measure)
        requires
            has_tree::<A, Rf, Self>(*self, *tree),
        ensures
            r == get_tree::<A, Rf, Self>(*self, *tree).spec_tree_measure(),
    {
        let t = self.clone_tree_ref(tree);
        t.measure()
    }
}

impl<A: Measured, Rf> Tree<A, Rf> {
    fn measure(&self) -> (r: A::Measure)
        ensures
            r == self.spec_tree_measure(),
    {
        match &self.0 {
            TreeInner::Empty => A::Measure::empty(),
            TreeInner::Single { measure, .. } => measure.duplicate(),
            TreeInner::Deep { measure, .. } => measure.duplicate(),
        }
    }
}

/// `r` is a well-formed node of level `d` in `refs`.
pub open spec fn node_ok<A: Measured, Rf, R: RefStore<Node<A, Rf>, Rf>>(refs: R, r: Rf, d: nat) -> bool {
    has_node::<A, Rf, R>(refs, r) && get_node::<A, Rf, R>(refs, r).wf_in(refs, d)
}

/// The elements below the node behind `r`.
pub open spec fn node_elems<A: Measured, Rf, R: RefStore<Node<A, Rf>, Rf>>(refs: R, r: Rf, d: nat) -> Seq<A> {
    get_node::<A, Rf, R>(refs, r).seq_in(refs, d)
}

/// The cached measure of the node behind `r`.
pub open spec fn node_measure_of<A: Measured, Rf, R: RefStore<Node<A, Rf>, Rf>>(refs: R, r: Rf) -> A::Measure {
    get_node::<A, Rf, R>(refs, r).spec_node_measure()
}

pub proof fn lemma_refs_extend_trans<A: Measured, Rf, R: RefStore<Node<A, Rf>, Rf> + RefStore<Tree<A, Rf>, Rf>>(a: R, b: R, c: R)
    requires
        refs_extend::<A, Rf, R>(b, a),
        refs_extend::<A, Rf, R>(c, b),
    ensures
        refs_extend::<A, Rf, R>(c, a),
{
    lemma_store_extends_trans::<Node<A, Rf>, Rf, R>(a, b, c);
    lemma_store_extends_trans::<Tree<A, Rf>, Rf, R>(a, b, c);
}

pub proof fn lemma_node_extends<A: Measured, Rf, R: RefStore<Node<A, Rf>, Rf> + RefStore<Tree<A, Rf>, Rf>>(a: R, b: R, r: Rf, d: nat)
    requires
        node_ok::<A, Rf, R>(a, r, d),
        refs_extend::<A, Rf, R>(b, a),
    ensures
        node_ok::<A, Rf, R>(b, r, d),
        node_elems::<A, Rf, R>(b, r, d) == node_elems::<A, Rf, R>(a, r, d),
        node_measure_of::<A, Rf, R>(b, r) == node_measure_of::<A, Rf, R>(a, r),
{
    get_node::<A, Rf, R>(a, r).lemma_extends(a, b, d);
}

/// A well-formed node caches the measure of its elements.
pub proof fn lemma_node_measure<A: Measured, Rf, R: RefStore<Node<A, Rf>, Rf>>(refs: R, r: Rf, d: nat)
    requires
        node_ok::<A, Rf, R>(refs, r, d),
    ensures
        node_measure_of::<A, Rf, R>(refs, r) == measure_of(node_elems::<A, Rf, R>(refs, r, d)),
{
}

pub proof fn lemma_nodes_seq_push<A: Measured, Rf, R: RefStore<Node<A, Rf>, Rf>>(refs: R, rs: Seq<Rf>, r: Rf, d: nat)
    ensures
        nodes_seq::<A, Rf, R>(refs, rs.push(r), d) == nodes_seq::<A, Rf, R>(refs, rs, d) + node_elems::<A, Rf, R>(refs, r, d),
{
    assert(rs.push(r).drop_last() =~= rs);
}

/// The elements below a digit, one node after another.
pub proof fn lemma_digit_seq<A: Measured, Rf, R: RefStore<Node<A, Rf>, Rf>>(refs: R, digit: Digit<Rf>, d: nat)
    ensures
        nodes_seq::<A, Rf, R>(refs, digit.items(), d) == match digit {
            Digit::One(a) => node_elems::<A, Rf, R>(refs, a, d),
            Digit::Two(a, b) => node_elems::<A, Rf, R>(refs, a, d) + node_elems::<A, Rf, R>(refs, b, d),
            Digit::Three(a, b, c) => node_elems::<A, Rf, R>(refs, a, d) + node_elems::<A, Rf, R>(refs, b, d) + node_elems::<A, Rf, R>(refs, c, d),
            Digit::Four(a, b, c, e) => node_elems::<A, Rf, R>(refs, a, d) + node_elems::<A, Rf, R>(refs, b, d) + node_elems::<A, Rf, R>(refs, c, d) + node_elems::<A, Rf, R>(refs, e, d),
        },
{
    let e = Seq::<Rf>::empty();
    assert(nodes_seq::<A, Rf, R>(refs, e, d) =~= Seq::<A>::empty());
    match digit {
        Digit::One(a) => {
            lemma_nodes_seq_push::<A, Rf, R>(refs, e, a, d);
            assert(e.push(a) =~= digit.items());
            assert(nodes_seq::<A, Rf, R>(refs, digit.items(), d) =~= node_elems::<A, Rf, R>(refs, a, d));
        },
        Digit::Two(a, b) => {
            lemma_nodes_seq_push::<A, Rf, R>(refs, e, a, d);
            lemma_nodes_seq_push::<A, Rf, R>(refs, e.push(a), b, d);
            assert(e.push(a).push(b) =~= digit.items());
            assert(Seq::<A>::empty() + node_elems::<A, Rf, R>(refs, a, d) =~= node_elems::<A, Rf, R>(refs, a, d));
        },
        Digit::Three(a, b, c) => {
            lemma_nodes_seq_push::<A, Rf, R>(refs, e, a, d);
            lemma_nodes_seq_push::<A, Rf, R>(refs, e.push(a), b, d);
            lemma_nodes_seq_push::<A, Rf, R>(refs, e.push(a).push(b), c, d);
            assert(e.push(a).push(b).push(c) =~= digit.items());
            assert(Seq::<A>::empty() + node_elems::<A, Rf, R>(refs, a, d) =~= node_elems::<A, Rf, R>(refs, a, d));
        },
        Digit::Four(a, b, c, f) => {
            lemma_nodes_seq_push::<A, Rf, R>(refs, e, a, d);
            lemma_nodes_seq_push::<A, Rf, R>(refs, e.push(a), b, d);
            lemma_nodes_seq_push::<A, Rf, R>(refs, e.push(a).push(b), c, d);
            lemma_nodes_seq_push::<A, Rf, R>(refs, e.push(a).push(b).push(c), f, d);
            assert(e.push(a).push(b).push(c).push(f) =~= digit.items());
            assert(Seq::<A>::empty() + node_elems::<A, Rf, R>(refs, a, d) =~= node_elems::<A, Rf, R>(refs, a, d));
        },
    }
}

/// The cached measure of the node behind `node`.
fn node_measure<A: Measured, Rf: Copy, R: FingerTreeRefs<A, Rf>>(refs: &R, node: &Rf, Ghost(d): Ghost<nat>) -> (r: A::Measure)
    requires
        node_ok::<A, Rf, R>(*refs, *node, d),
    ensures
        r == measure_of(node_elems::<A, Rf, R>(*refs, *node, d)),
{
    refs.measure_node_ref(node)
}

/// The cached measure of the tree level behind `tree`.
fn tree_measure<A: Measured, Rf: Copy, R: FingerTreeRefs<A, Rf>>(refs: &R, tree: &Rf, Ghost(d): Ghost<nat>) -> (r: A::Measure)
    requires
        has_tree::<A, Rf, R>(*refs, *tree),
        get_tree::<A, Rf, R>(*refs, *tree).wf_in(*refs, d),
    ensures
        r == measure_of(get_tree::<A, Rf, R>(*refs, *tree).seq_in(*refs, d)),
{
    refs.measure_tree_ref(tree)
}

/// The merged measure of the nodes of a digit.
fn digit_measure<A: Measured, Rf: Copy, R: FingerTreeRefs<A, Rf>>(digit: &Digit<Rf>, refs: &R, Ghost(d): Ghost<nat>) -> (r: A::Measure)
    requires
        nodes_wf::<A, Rf, R>(*refs, digit.items(), d),
    ensures
        r == measure_of(nodes_seq::<A, Rf, R>(*refs, digit.items(), d)),
    decreases digit.items().len(),
{
    let (init, last) = digit.view_back();
    assert(node_ok::<A, Rf, R>(*refs, last, d)) by {
        assert(digit.items()[digit.items().len() - 1] == last);
    }
    let m = node_measure(refs, &last, Ghost(d));
    proof {
        lemma_nodes_seq_push::<A, Rf, R>(*refs, opt_items(init), last, d);
        lemma_measure_concat(nodes_seq::<A, Rf, R>(*refs, opt_items(init), d), node_elems::<A, Rf, R>(*refs, last, d));
    }
    match init {
        None => {
            proof {
                lemma_measure_empty::<A>();
                A::Measure::lemma_empty_identity(m);
                assert(nodes_seq::<A, Rf, R>(*refs, Seq::<Rf>::empty(), d) =~= Seq::<A>::empty());
            }
            m
        },
        Some(init) => {
            assert forall|i: int| 0 <= i < init.items().len() implies node_ok::<A, Rf, R>(*refs, #[trigger] init.items()[i], d) by {
                assert(init.items()[i] == digit.items()[i]);
            }
            let left = digit_measure(&init, refs, Ghost(d));
            left.merge(m)
        },
    }
}

impl<A: Measured, Rf: Copy> Node<A, Rf> {
    /// This node is a leaf holding `a`.
    pub closed spec fn is_leaf_of(self, a: A) -> bool {
        self.inner == NodeInner::<A, Rf>::Leaf(a) && self.measure == a.spec_measure()
    }

    pub proof fn lemma_leaf<R: RefStore<Node<A, Rf>, Rf>>(self, a: A, refs: R)
        requires
            self.is_leaf_of(a),
        ensures
            self.wf_in(refs, 0),
            self.seq_in(refs, 0) == seq![a],
    {
        lemma_measure_single(a);
    }

    fn leaf(value: A) -> (r: Self)
        ensures
            r.is_leaf_of(value),
    {
        let measure = value.measure();
        Node { measure, inner: NodeInner::Leaf(value) }
    }

    fn branch2<R: FingerTreeRefs<A, Rf>>(refs: &R, left: Rf, right: Rf, Ghost(d): Ghost<nat>) -> (r: Self)
        requires
            node_ok::<A, Rf, R>(*refs, left, d),
            node_ok::<A, Rf, R>(*refs, right, d),
        ensures
            r.wf_in(*refs, d + 1),
            r.seq_in(*refs, d + 1) == node_elems::<A, Rf, R>(*refs, left, d) + node_elems::<A, Rf, R>(*refs, right, d),
    {
        let ml = node_measure(refs, &left, Ghost(d));
        let mr = node_measure(refs, &right, Ghost(d));
        proof {
            lemma_measure_concat(node_elems::<A, Rf, R>(*refs, left, d), node_elems::<A, Rf, R>(*refs, right, d));
        }
        Node { measure: ml.merge(mr), inner: NodeInner::Branch2 { left, right } }
    }

    fn branch3<R: FingerTreeRefs<A, Rf>>(refs: &R, left: Rf, middle: Rf, right: Rf, Ghost(d): Ghost<nat>) -> (r: Self)
        requires
            node_ok::<A, Rf, R>(*refs, left, d),
            node_ok::<A, Rf, R>(*refs, middle, d),
            node_ok::<A, Rf, R>(*refs, right, d),
        ensures
            r.wf_in(*refs, d + 1),
            r.seq_in(*refs, d + 1) == node_elems::<A, Rf, R>(*refs, left, d) + node_elems::<A, Rf, R>(*refs, middle, d) + node_elems::<A, Rf, R>(*refs, right, d),
    {
        let ml = node_measure(refs, &left, Ghost(d));
        let mm = node_measure(refs, &middle, Ghost(d));
        let mr = node_measure(refs, &right, Ghost(d));
        proof {
            lemma_measure_concat(node_elems::<A, Rf, R>(*refs, left, d), node_elems::<A, Rf, R>(*refs, middle, d));
            lemma_measure_concat(node_elems::<A, Rf, R>(*refs, left, d) + node_elems::<A, Rf, R>(*refs, middle, d), node_elems::<A, Rf, R>(*refs, right, d));
        }
        Node { measure: ml.merge(mm).merge(mr), inner: NodeInner::Branch3 { left, middle, right } }
    }
}

impl<A: Measured, Rf: Copy> Node<A, Rf> {
    /// The element of a leaf.
    fn leaf_value<R: FingerTreeRefs<A, Rf>>(refs: &R, node: &Rf) -> (r: A)
        requires
            node_ok::<A, Rf, R>(*refs, *node, 0),
        ensures
            seq![r] == node_elems::<A, Rf, R>(*refs, *node, 0),
        decreases 0nat,
    {
        let n = refs.read_node(node);
        match n.inner {
            NodeInner::Leaf(value) => value,
            NodeInner::Branch2 { left, .. } => {
                proof {
                    assert(false);
                }
                Self::leaf_value(refs, &left)
            },
            NodeInner::Branch3 { left, .. } => {
                proof {
                    assert(false);
                }
                Self::leaf_value(refs, &left)
            },
        }
    }

    /// The children of a branch, as a digit one level down.
    fn to_digit<R: FingerTreeRefs<A, Rf>>(refs: &R, node: &Rf, Ghost(d): Ghost<nat>) -> (r: Digit<Rf>)
        requires
            node_ok::<A, Rf, R>(*refs, *node, d + 1),
        ensures
            nodes_wf::<A, Rf, R>(*refs, r.items(), d),
            nodes_seq::<A, Rf, R>(*refs, r.items(), d) == node_elems::<A, Rf, R>(*refs, *node, d + 1),
            r.items().len() <= 3,
    {
        let n = refs.read_node(node);
        match n.inner {
            NodeInner::Branch2 { left, right } => {
                let r = Digit::Two(left, right);
                proof {
                    lemma_digit_seq::<A, Rf, R>(*refs, r, d);
                }
                r
            },
            NodeInner::Branch3 { left, middle, right } => {
                let r = Digit::Three(left, middle, right);
                proof {
                    lemma_digit_seq::<A, Rf, R>(*refs, r, d);
                }
                r
            },
            NodeInner::Leaf(_) => {
                proof {
                    assert(false);
                }
                Digit::One(*node)
            },
        }
    }

}

impl<A: Measured, Rf: Copy> Tree<A, Rf> {
    pub proof fn lemma_empty<R: RefStore<Node<A, Rf>, Rf> + RefStore<Tree<A, Rf>, Rf>>(self, refs: R, d: nat)
        requires
            self.is_empty_tree(),
        ensures
            self.wf_in(refs, d),
            self.seq_in(refs, d) == Seq::<A>::empty(),
    {
        lemma_measure_empty::<A>();
    }

    fn empty() -> (r: Self)
        ensures
            r.is_empty_tree(),
            r.spec_height() == 0,
    {
        Tree(TreeInner::Empty)
    }

    fn single<R: FingerTreeRefs<A, Rf>>(refs: &R, node: Rf, Ghost(d): Ghost<nat>) -> (r: Self)
        requires
            node_ok::<A, Rf, R>(*refs, node, d),
        ensures
            r.wf_in(*refs, d),
            r.seq_in(*refs, d) == node_elems::<A, Rf, R>(*refs, node, d),
            !r.is_empty_tree(),
            r.spec_height() == 0,
    {
        let measure = node_measure(refs, &node, Ghost(d));
        Tree(TreeInner::Single { measure, node })
    }

    fn deep_with_measure(measure: A::Measure, prefix: Digit<Rf>, deeper: Rf, suffix: Digit<Rf>, Ghost(height): Ghost<nat>) -> (r: Self)
        ensures
            r.0 == (TreeInner::<A, Rf>::Deep { measure, prefix, deeper, suffix, height: Ghost(height) }),
    {
        Tree(TreeInner::Deep { measure, prefix, deeper, suffix, height: Ghost(height) })
    }

    fn deep<R: FingerTreeRefs<A, Rf>>(refs: &R, prefix: Digit<Rf>, deeper: Rf, suffix: Digit<Rf>, Ghost(d): Ghost<nat>) -> (r: Self)
        requires
            nodes_wf::<A, Rf, R>(*refs, prefix.items(), d),
            nodes_wf::<A, Rf, R>(*refs, suffix.items(), d),
            has_tree::<A, Rf, R>(*refs, deeper),
            get_tree::<A, Rf, R>(*refs, deeper).wf_in(*refs, d + 1),
        ensures
            r.wf_in(*refs, d),
            r.seq_in(*refs, d) == nodes_seq::<A, Rf, R>(*refs, prefix.items(), d) + get_tree::<A, Rf, R>(*refs, deeper).seq_in(*refs, d + 1)
                + nodes_seq::<A, Rf, R>(*refs, suffix.items(), d),
            !r.is_empty_tree(),
            r.spec_height() == get_tree::<A, Rf, R>(*refs, deeper).spec_height() + 1,
    {
        let ghost inner = get_tree::<A, Rf, R>(*refs, deeper);
        let mp = digit_measure(&prefix, refs, Ghost(d));
        let md = tree_measure(refs, &deeper, Ghost(d + 1));
        let ms = digit_measure(&suffix, refs, Ghost(d));
        proof {
            let p = nodes_seq::<A, Rf, R>(*refs, prefix.items(), d);
            let q = inner.seq_in(*refs, d + 1);
            let t = nodes_seq::<A, Rf, R>(*refs, suffix.items(), d);
            lemma_measure_concat(p, q);
            lemma_measure_concat(p + q, t);
        }
        Self::deep_with_measure(mp.merge(md).merge(ms), prefix, deeper, suffix, Ghost(inner.spec_height() + 1))
    }
}

impl<A: Measured, Rf: Copy> Tree<A, Rf> {
    /// Adds `node` before the elements of the tree.
    fn push_front<R: FingerTreeRefs<A, Rf>>(self, refs: &mut R, node: Rf, Ghost(d): Ghost<nat>) -> (r: Self)
        requires
            self.wf_in(*old(refs), d),
            node_ok::<A, Rf, R>(*old(refs), node, d),
            room_for::<A, Rf, R>(*old(refs), 2 * self.spec_height() + 1),
        ensures
            refs_extend::<A, Rf, R>(*final(refs), *old(refs)),
            spent::<A, Rf, R>(*final(refs), *old(refs), 2 * self.spec_height() + 1),
            r.spec_height() <= self.spec_height() + 1,
            r.wf_in(*final(refs), d),
            r.seq_in(*final(refs), d) == node_elems::<A, Rf, R>(*old(refs), node, d) + self.seq_in(*old(refs), d),
            !r.is_empty_tree(),
        decreases self.spec_height(), 1nat,
    {
        let ghost r0 = *refs;
        let ghost old_seq = self.seq_in(r0, d);
        let ghost ne = node_elems::<A, Rf, R>(r0, node, d);
        proof {
            lemma_store_extends_refl::<Node<A, Rf>, Rf, R>(r0);
            lemma_store_extends_refl::<Tree<A, Rf>, Rf, R>(r0);
        }
        match self.0 {
            TreeInner::Empty => {
                assert(ne + old_seq =~= ne);
                Self::single(refs, node, Ghost(d))
            },
            TreeInner::Single { measure, node: old_node } => {
                let nm = node_measure(refs, &node, Ghost(d));
                let deeper = refs.alloc_tree(Self::empty());
                let ghost r1 = *refs;
                let r = Self::deep_with_measure(nm.merge(measure), Digit::One(node), deeper, Digit::One(old_node), Ghost(1));
                proof {
                    lemma_node_extends::<A, Rf, R>(r0, r1, node, d);
                    lemma_node_extends::<A, Rf, R>(r0, r1, old_node, d);
                    get_tree::<A, Rf, R>(r1, deeper).lemma_empty(r1, d + 1);
                    lemma_digit_seq::<A, Rf, R>(r1, Digit::One(node), d);
                    lemma_digit_seq::<A, Rf, R>(r1, Digit::One(old_node), d);
                    assert(r.seq_in(r1, d) =~= ne + old_seq);
                    lemma_measure_concat(ne, old_seq);
                }
                r
            },
            TreeInner::Deep { measure, prefix, deeper, suffix, height } => {
                if prefix.is_full() {
                    Self::push_front_full(Tree(TreeInner::Deep { measure, prefix, deeper, suffix, height }), refs, node, Ghost(d))
                } else {
                    let nm = node_measure(refs, &node, Ghost(d));
                    let new_prefix = prefix.push_front(node);
                    let r = Self::deep_with_measure(nm.merge(measure), new_prefix, deeper, suffix, Ghost(height@));
                    proof {
                        lemma_nodes_seq_concat::<A, Rf, R>(r0, seq![node], prefix.items(), d);
                        lemma_nodes_seq_single::<A, Rf, R>(r0, node, d);
                        assert forall|i: int| 0 <= i < new_prefix.items().len() implies node_ok::<A, Rf, R>(r0, #[trigger] new_prefix.items()[i], d) by {
                            if i > 0 {
                                assert(new_prefix.items()[i] == prefix.items()[i - 1]);
                            }
                        }
                        assert(r.seq_in(r0, d) =~= ne + old_seq);
                        lemma_measure_concat(ne, old_seq);
                    }
                    r
                }
            },
        }
    }

    /// `push_front` on a tree whose prefix is full: three of its nodes go one level down as
    /// a branch.
    #[verifier::rlimit(60)]
    fn push_front_full<R: FingerTreeRefs<A, Rf>>(self, refs: &mut R, node: Rf, Ghost(d): Ghost<nat>) -> (r: Self)
        requires
            self.wf_in(*old(refs), d),
            self.0 is Deep,
            self.0->prefix is Four,
            node_ok::<A, Rf, R>(*old(refs), node, d),
            room_for::<A, Rf, R>(*old(refs), 2 * self.spec_height() + 1),
        ensures
            refs_extend::<A, Rf, R>(*final(refs), *old(refs)),
            spent::<A, Rf, R>(*final(refs), *old(refs), 2 * self.spec_height() + 1),
            r.spec_height() <= self.spec_height() + 1,
            r.wf_in(*final(refs), d),
            r.seq_in(*final(refs), d) == node_elems::<A, Rf, R>(*old(refs), node, d) + self.seq_in(*old(refs), d),
            !r.is_empty_tree(),
        decreases self.spec_height(), 0nat,
    {
        let ghost r0 = *refs;
        let ghost old_seq = self.seq_in(r0, d);
        let ghost ne = node_elems::<A, Rf, R>(r0, node, d);
        let ghost full = self.0->prefix;
        let (measure, a, b, c, e, deeper, suffix) = match self.0 {
            TreeInner::Deep { measure, prefix: Digit::Four(a, b, c, e), deeper, suffix, .. } => (measure, a, b, c, e, deeper, suffix),
            _ => {
                proof {
                    assert(false);
                }
                return self;
            },
        };
        let nm = node_measure(refs, &node, Ghost(d));
        proof {
            assert(full.items()[0] == a && full.items()[1] == b && full.items()[2] == c && full.items()[3] == e);
        }
        let branch = Node::branch3(refs, b, c, e, Ghost(d));
        let bref = refs.alloc_node(branch);
        let ghost r1 = *refs;
        let inner = refs.clone_tree_ref(&deeper);
        proof {
            get_tree::<A, Rf, R>(r0, deeper).lemma_extends(r0, r1, d + 1);
            branch.lemma_extends(r0, r1, d + 1);
        }
        let inner = inner.push_front(refs, bref, Ghost(d + 1));
        let ghost r2 = *refs;
        let deeper = refs.alloc_tree(inner);
        let ghost r3 = *refs;
        let r = Self::deep_with_measure(nm.merge(measure), Digit::Two(node, a), deeper, suffix, Ghost(inner.spec_height() + 1));
        proof {
            lemma_refs_extend_trans::<A, Rf, R>(r0, r1, r2);
            lemma_refs_extend_trans::<A, Rf, R>(r0, r2, r3);
            lemma_node_extends::<A, Rf, R>(r0, r3, node, d);
            lemma_node_extends::<A, Rf, R>(r0, r3, a, d);
            lemma_node_extends::<A, Rf, R>(r0, r1, b, d);
            lemma_node_extends::<A, Rf, R>(r0, r1, c, d);
            lemma_node_extends::<A, Rf, R>(r0, r1, e, d);
            lemma_nodes_extends::<A, Rf, R>(r0, r3, suffix.items(), d);
            inner.lemma_extends(r2, r3, d + 1);
            lemma_digit_seq::<A, Rf, R>(r3, Digit::Two(node, a), d);
            lemma_digit_seq::<A, Rf, R>(r0, full, d);
            assert forall|i: int| 0 <= i < Digit::Two(node, a).items().len() implies node_ok::<A, Rf, R>(r3, #[trigger] Digit::Two(node, a).items()[i], d) by {
            }
            assert(r.seq_in(r3, d) =~= ne + old_seq);
            lemma_measure_concat(ne, old_seq);
        }
        r
    }
}

impl<A: Measured, Rf: Copy> Tree<A, Rf> {
    /// Adds `node` after the elements of the tree.
    fn push_back<R: FingerTreeRefs<A, Rf>>(self, refs: &mut R, node: Rf, Ghost(d): Ghost<nat>) -> (r: Self)
        requires
            self.wf_in(*old(refs), d),
            node_ok::<A, Rf, R>(*old(refs), node, d),
            room_for::<A, Rf, R>(*old(refs), 2 * self.spec_height() + 1),
        ensures
            refs_extend::<A, Rf, R>(*final(refs), *old(refs)),
            spent::<A, Rf, R>(*final(refs), *old(refs), 2 * self.spec_height() + 1),
            r.spec_height() <= self.spec_height() + 1,
            r.wf_in(*final(refs), d),
            r.seq_in(*final(refs), d) == self.seq_in(*old(refs), d) + node_elems::<A, Rf, R>(*old(refs), node, d),
            !r.is_empty_tree(),
        decreases self.spec_height(), 1nat,
    {
        let ghost r0 = *refs;
        let ghost old_seq = self.seq_in(r0, d);
        let ghost ne = node_elems::<A, Rf, R>(r0, node, d);
        proof {
            lemma_store_extends_refl::<Node<A, Rf>, Rf, R>(r0);
            lemma_store_extends_refl::<Tree<A, Rf>, Rf, R>(r0);
        }
        match self.0 {
            TreeInner::Empty => {
                assert(old_seq + ne =~= ne);
                Self::single(refs, node, Ghost(d))
            },
            TreeInner::Single { measure, node: old_node } => {
                let nm = node_measure(refs, &node, Ghost(d));
                let deeper = refs.alloc_tree(Self::empty());
                let ghost r1 = *refs;
                let r = Self::deep_with_measure(measure.merge(nm), Digit::One(old_node), deeper, Digit::One(node), Ghost(1));
                proof {
                    lemma_node_extends::<A, Rf, R>(r0, r1, node, d);
                    lemma_node_extends::<A, Rf, R>(r0, r1, old_node, d);
                    get_tree::<A, Rf, R>(r1, deeper).lemma_empty(r1, d + 1);
                    lemma_digit_seq::<A, Rf, R>(r1, Digit::One(node), d);
                    lemma_digit_seq::<A, Rf, R>(r1, Digit::One(old_node), d);
                    assert(r.seq_in(r1, d) =~= old_seq + ne);
                    lemma_measure_concat(old_seq, ne);
                }
                r
            },
            TreeInner::Deep { measure, prefix, deeper, suffix, height } => {
                if suffix.is_full() {
                    Self::push_back_full(Tree(TreeInner::Deep { measure, prefix, deeper, suffix, height }), refs, node, Ghost(d))
                } else {
                    let nm = node_measure(refs, &node, Ghost(d));
                    let new_suffix = suffix.push_back(node);
                    let r = Self::deep_with_measure(measure.merge(nm), prefix, deeper, new_suffix, Ghost(height@));
                    proof {
                        lemma_nodes_seq_push::<A, Rf, R>(r0, suffix.items(), node, d);
                        assert forall|i: int| 0 <= i < new_suffix.items().len() implies node_ok::<A, Rf, R>(r0, #[trigger] new_suffix.items()[i], d) by {
                            if i < suffix.items().len() {
                                assert(new_suffix.items()[i] == suffix.items()[i]);
                            }
                        }
                        assert(r.seq_in(r0, d) =~= old_seq + ne);
                        lemma_measure_concat(old_seq, ne);
                    }
                    r
                }
            },
        }
    }

    /// `push_back` on a tree whose suffix is full: three of its nodes go one level down as
    /// a branch.
    #[verifier::rlimit(60)]
    fn push_back_full<R: FingerTreeRefs<A, Rf>>(self, refs: &mut R, node: Rf, Ghost(d): Ghost<nat>) -> (r: Self)
        requires
            self.wf_in(*old(refs), d),
            self.0 is Deep,
            self.0->suffix is Four,
            node_ok::<A, Rf, R>(*old(refs), node, d),
            room_for::<A, Rf, R>(*old(refs), 2 * self.spec_height() + 1),
        ensures
            refs_extend::<A, Rf, R>(*final(refs), *old(refs)),
            spent::<A, Rf, R>(*final(refs), *old(refs), 2 * self.spec_height() + 1),
            r.spec_height() <= self.spec_height() + 1,
            r.wf_in(*final(refs), d),
            r.seq_in(*final(refs), d) == self.seq_in(*old(refs), d) + node_elems::<A, Rf, R>(*old(refs), node, d),
            !r.is_empty_tree(),
        decreases self.spec_height(), 0nat,
    {
        let ghost r0 = *refs;
        let ghost old_seq = self.seq_in(r0, d);
        let ghost ne = node_elems::<A, Rf, R>(r0, node, d);
        let ghost full = self.0->suffix;
        let (measure, prefix, deeper, a, b, c, e) = match self.0 {
            TreeInner::Deep { measure, prefix, deeper, suffix: Digit::Four(a, b, c, e), .. } => (measure, prefix, deeper, a, b, c, e),
            _ => {
                proof {
                    assert(false);
                }
                return self;
            },
        };
        let nm = node_measure(refs, &node, Ghost(d));
        proof {
            assert(full.items()[0] == a && full.items()[1] == b && full.items()[2] == c && full.items()[3] == e);
        }
        let branch = Node::branch3(refs, a, b, c, Ghost(d));
        let bref = refs.alloc_node(branch);
        let ghost r1 = *refs;
        let inner = refs.clone_tree_ref(&deeper);
        proof {
            get_tree::<A, Rf, R>(r0, deeper).lemma_extends(r0, r1, d + 1);
            branch.lemma_extends(r0, r1, d + 1);
        }
        let inner = inner.push_back(refs, bref, Ghost(d + 1));
        let ghost r2 = *refs;
        let deeper = refs.alloc_tree(inner);
        let ghost r3 = *refs;
        let r = Self::deep_with_measure(measure.merge(nm), prefix, deeper, Digit::Two(e, node), Ghost(inner.spec_height() + 1));
        proof {
            lemma_refs_extend_trans::<A, Rf, R>(r0, r1, r2);
            lemma_refs_extend_trans::<A, Rf, R>(r0, r2, r3);
            lemma_node_extends::<A, Rf, R>(r0, r3, node, d);
            lemma_node_extends::<A, Rf, R>(r0, r3, e, d);
            lemma_node_extends::<A, Rf, R>(r0, r1, a, d);
            lemma_node_extends::<A, Rf, R>(r0, r1, b, d);
            lemma_node_extends::<A, Rf, R>(r0, r1, c, d);
            lemma_nodes_extends::<A, Rf, R>(r0, r3, prefix.items(), d);
            inner.lemma_extends(r2, r3, d + 1);
            lemma_digit_seq::<A, Rf, R>(r3, Digit::Two(e, node), d);
            lemma_digit_seq::<A, Rf, R>(r0, full, d);
            assert forall|i: int| 0 <= i < Digit::Two(e, node).items().len() implies node_ok::<A, Rf, R>(r3, #[trigger] Digit::Two(e, node).items()[i], d) by {
            }
            assert(r.seq_in(r3, d) =~= old_seq + ne);
            lemma_measure_concat(old_seq, ne);
        }
        r
    }
}

impl<A: Measured, Rf: Copy> Tree<A, Rf> {
    /// A tree of the nodes of a digit, in order.
    fn from_nodes<R: FingerTreeRefs<A, Rf>>(refs: &mut R, digit: Digit<Rf>, Ghost(d): Ghost<nat>) -> (r: Self)
        requires
            nodes_wf::<A, Rf, R>(*old(refs), digit.items(), d),
            room_for::<A, Rf, R>(*old(refs), digit.items().len() * digit.items().len()),
        ensures
            refs_extend::<A, Rf, R>(*final(refs), *old(refs)),
            spent::<A, Rf, R>(*final(refs), *old(refs), digit.items().len() * digit.items().len()),
            r.spec_height() <= digit.items().len(),
            r.wf_in(*final(refs), d),
            r.seq_in(*final(refs), d) == nodes_seq::<A, Rf, R>(*old(refs), digit.items(), d),
        decreases digit.items().len(),
    {
        let ghost r0 = *refs;
        let (init, last) = digit.view_back();
        proof {
            assert(digit.items()[digit.items().len() - 1] == last);
            lemma_nodes_seq_push::<A, Rf, R>(r0, opt_items(init), last, d);
            digit.lemma_items_len();
            lemma_digit_room(digit.items().len());
        }
        let t = match init {
            None => {
                let t = Self::empty();
                proof {
                    lemma_store_extends_refl::<Node<A, Rf>, Rf, R>(r0);
                    lemma_store_extends_refl::<Tree<A, Rf>, Rf, R>(r0);
                    t.lemma_empty(r0, d);
                    assert(nodes_seq::<A, Rf, R>(r0, Seq::<Rf>::empty(), d) =~= Seq::<A>::empty());
                }
                t
            },
            Some(init) => {
                assert forall|i: int| 0 <= i < init.items().len() implies node_ok::<A, Rf, R>(r0, #[trigger] init.items()[i], d) by {
                    assert(init.items()[i] == digit.items()[i]);
                }
                Self::from_nodes(refs, init, Ghost(d))
            },
        };
        let ghost r1 = *refs;
        proof {
            lemma_node_extends::<A, Rf, R>(r0, r1, last, d);
        }
        let r = t.push_back(refs, last, Ghost(d));
        proof {
            lemma_refs_extend_trans::<A, Rf, R>(r0, r1, *refs);
        }
        r
    }

    /// A tree of the nodes of an optional digit.
    fn from_optional_digit<R: FingerTreeRefs<A, Rf>>(refs: &mut R, digit: Option<Digit<Rf>>, Ghost(d): Ghost<nat>) -> (r: Self)
        requires
            nodes_wf::<A, Rf, R>(*old(refs), opt_items(digit), d),
            room_for::<A, Rf, R>(*old(refs), opt_items(digit).len() * opt_items(digit).len()),
        ensures
            refs_extend::<A, Rf, R>(*final(refs), *old(refs)),
            spent::<A, Rf, R>(*final(refs), *old(refs), opt_items(digit).len() * opt_items(digit).len()),
            r.spec_height() <= opt_items(digit).len(),
            r.wf_in(*final(refs), d),
            r.seq_in(*final(refs), d) == nodes_seq::<A, Rf, R>(*old(refs), opt_items(digit), d),
    {
        match digit {
            Some(digit) => Self::from_nodes(refs, digit, Ghost(d)),
            None => {
                let t = Self::empty();
                proof {
                    lemma_store_extends_refl::<Node<A, Rf>, Rf, R>(*refs);
                    lemma_store_extends_refl::<Tree<A, Rf>, Rf, R>(*refs);
                    t.lemma_empty(*refs, d);
                    assert(nodes_seq::<A, Rf, R>(*refs, Seq::<Rf>::empty(), d) =~= Seq::<A>::empty());
                }
                t
            },
        }
    }

    /// Splits off the first node of a tree level.
    fn view_front_with<R: FingerTreeRefs<A, Rf>>(refs: &mut R, layer: TreeInner<A, Rf>, Ghost(d): Ghost<nat>) -> (r: Option<(Rf, Self)>)
        requires
            Tree(layer).wf_in(*old(refs), d),
            room_for::<A, Rf, R>(*old(refs), Tree(layer).spec_height() + 16),
        ensures
            refs_extend::<A, Rf, R>(*final(refs), *old(refs)),
            spent::<A, Rf, R>(*final(refs), *old(refs), Tree(layer).spec_height() + 16),
            r matches Some((_, rest)) ==> rest.spec_height() <= Tree(layer).spec_height() + 4,
            r is None ==> spent::<A, Rf, R>(*final(refs), *old(refs), 0),
            match r {
                None => Tree(layer).seq_in(*old(refs), d) == Seq::<A>::empty(),
                Some((node, rest)) => {
                    &&& node_ok::<A, Rf, R>(*final(refs), node, d)
                    &&& rest.wf_in(*final(refs), d)
                    &&& Tree(layer).seq_in(*old(refs), d) == node_elems::<A, Rf, R>(*final(refs), node, d) + rest.seq_in(*final(refs), d)
                },
            },
        decreases Tree(layer).spec_height(), 1nat,
    {
        let ghost r0 = *refs;
        proof {
            lemma_store_extends_refl::<Node<A, Rf>, Rf, R>(r0);
            lemma_store_extends_refl::<Tree<A, Rf>, Rf, R>(r0);
        }
        match layer {
            TreeInner::Empty => None,
            TreeInner::Single { node, .. } => {
                let rest = Self::empty();
                proof {
                    rest.lemma_empty(r0, d);
                    assert(node_elems::<A, Rf, R>(r0, node, d) + Seq::<A>::empty() =~= node_elems::<A, Rf, R>(r0, node, d));
                }
                Some((node, rest))
            },
            TreeInner::Deep { prefix, deeper, suffix, .. } => {
                let (head, tail) = prefix.view_front();
                proof {
                    assert(prefix.items()[0] == head);
                    assert forall|i: int| 0 <= i < opt_items(tail).len() implies node_ok::<A, Rf, R>(r0, #[trigger] opt_items(tail)[i], d) by {
                        assert(opt_items(tail)[i] == prefix.items()[i + 1]);
                    }
                    lemma_nodes_seq_concat::<A, Rf, R>(r0, seq![head], opt_items(tail), d);
                    lemma_nodes_seq_single::<A, Rf, R>(r0, head, d);
                }
                let rest = Self::deep_left_with(refs, tail, deeper, suffix, Ghost(d));
                proof {
                    lemma_node_extends::<A, Rf, R>(r0, *refs, head, d);
                    let p = nodes_seq::<A, Rf, R>(r0, prefix.items(), d);
                    assert(Tree(layer).seq_in(r0, d) =~= node_elems::<A, Rf, R>(r0, head, d) + rest.seq_in(*refs, d));
                }
                Some((head, rest))
            },
        }
    }

    /// A tree level from an optional prefix, a deeper tree and a suffix; an empty prefix is
    /// refilled from the front of the deeper tree.
    fn deep_left_with<R: FingerTreeRefs<A, Rf>>(refs: &mut R, prefix: Option<Digit<Rf>>, deeper: Rf, suffix: Digit<Rf>, Ghost(d): Ghost<nat>) -> (r: Self)
        requires
            nodes_wf::<A, Rf, R>(*old(refs), opt_items(prefix), d),
            nodes_wf::<A, Rf, R>(*old(refs), suffix.items(), d),
            has_tree::<A, Rf, R>(*old(refs), deeper),
            get_tree::<A, Rf, R>(*old(refs), deeper).wf_in(*old(refs), d + 1),
            room_for::<A, Rf, R>(*old(refs), get_tree::<A, Rf, R>(*old(refs), deeper).spec_height() + 17),
        ensures
            refs_extend::<A, Rf, R>(*final(refs), *old(refs)),
            spent::<A, Rf, R>(*final(refs), *old(refs), get_tree::<A, Rf, R>(*old(refs), deeper).spec_height() + 17),
            r.spec_height() <= get_tree::<A, Rf, R>(*old(refs), deeper).spec_height() + 5,
            r.wf_in(*final(refs), d),
            r.seq_in(*final(refs), d) == nodes_seq::<A, Rf, R>(*old(refs), opt_items(prefix), d) + get_tree::<A, Rf, R>(*old(refs), deeper).seq_in(*old(refs), d + 1)
                + nodes_seq::<A, Rf, R>(*old(refs), suffix.items(), d),
        decreases get_tree::<A, Rf, R>(*old(refs), deeper).spec_height() + 1, 0nat,
    {
        let ghost r0 = *refs;
        let ghost inner_seq = get_tree::<A, Rf, R>(r0, deeper).seq_in(r0, d + 1);
        let ghost s = nodes_seq::<A, Rf, R>(r0, suffix.items(), d);
        proof {
            lemma_store_extends_refl::<Node<A, Rf>, Rf, R>(r0);
            lemma_store_extends_refl::<Tree<A, Rf>, Rf, R>(r0);
        }
        match prefix {
            Some(prefix) => Self::deep(refs, prefix, deeper, suffix, Ghost(d)),
            None => {
                proof {
                    assert(nodes_seq::<A, Rf, R>(r0, Seq::<Rf>::empty(), d) =~= Seq::<A>::empty());
                }
                let inner = refs.clone_tree_ref(&deeper);
                match Self::view_front_with(refs, inner.0, Ghost(d + 1)) {
                    Some((node, rest)) => {
                        let ghost r1 = *refs;
                        let prefix = Node::to_digit(refs, &node, Ghost(d));
                        let deeper = refs.alloc_tree(rest);
                        let ghost r2 = *refs;
                        proof {
                            lemma_nodes_extends::<A, Rf, R>(r0, r2, suffix.items(), d);
                            lemma_nodes_extends::<A, Rf, R>(r1, r2, prefix.items(), d);
                            rest.lemma_extends(r1, r2, d + 1);
                            lemma_refs_extend_trans::<A, Rf, R>(r0, r1, r2);
                        }
                        let r = Self::deep(refs, prefix, deeper, suffix, Ghost(d));
                        proof {
                            assert(r.seq_in(r2, d) =~= Seq::<A>::empty() + inner_seq + s);
                        }
                        r
                    },
                    None => {
                        proof {
                            lemma_nodes_extends::<A, Rf, R>(r0, *refs, suffix.items(), d);
                        }
                        let ghost r1 = *refs;
                        proof {
                            suffix.lemma_items_len();
                            lemma_digit_room(suffix.items().len());
                        }
                        let r = Self::from_nodes(refs, suffix, Ghost(d));
                        proof {
                            lemma_refs_extend_trans::<A, Rf, R>(r0, r1, *refs);
                            assert(r.seq_in(*refs, d) =~= Seq::<A>::empty() + inner_seq + s);
                        }
                        r
                    },
                }
            },
        }
    }
}

impl<A: Measured, Rf: Copy> Tree<A, Rf> {
    /// Splits off the last node of a tree level.
    fn view_back_with<R: FingerTreeRefs<A, Rf>>(refs: &mut R, layer: TreeInner<A, Rf>, Ghost(d): Ghost<nat>) -> (r: Option<(Self, Rf)>)
        requires
            Tree(layer).wf_in(*old(refs), d),
            room_for::<A, Rf, R>(*old(refs), Tree(layer).spec_height() + 16),
        ensures
            refs_extend::<A, Rf, R>(*final(refs), *old(refs)),
            spent::<A, Rf, R>(*final(refs), *old(refs), Tree(layer).spec_height() + 16),
            r matches Some((rest, _)) ==> rest.spec_height() <= Tree(layer).spec_height() + 4,
            r is None ==> spent::<A, Rf, R>(*final(refs), *old(refs), 0),
            match r {
                None => Tree(layer).seq_in(*old(refs), d) == Seq::<A>::empty(),
                Some((rest, node)) => {
                    &&& node_ok::<A, Rf, R>(*final(refs), node, d)
                    &&& rest.wf_in(*final(refs), d)
                    &&& Tree(layer).seq_in(*old(refs), d) == rest.seq_in(*final(refs), d) + node_elems::<A, Rf, R>(*final(refs), node, d)
                },
            },
        decreases Tree(layer).spec_height(), 1nat,
    {
        let ghost r0 = *refs;
        proof {
            lemma_store_extends_refl::<Node<A, Rf>, Rf, R>(r0);
            lemma_store_extends_refl::<Tree<A, Rf>, Rf, R>(r0);
        }
        match layer {
            TreeInner::Empty => None,
            TreeInner::Single { node, .. } => {
                let rest = Self::empty();
                proof {
                    rest.lemma_empty(r0, d);
                    assert(Seq::<A>::empty() + node_elems::<A, Rf, R>(r0, node, d) =~= node_elems::<A, Rf, R>(r0, node, d));
                }
                Some((rest, node))
            },
            TreeInner::Deep { prefix, deeper, suffix, .. } => {
                let (init, last) = suffix.view_back();
                proof {
                    assert(suffix.items()[suffix.items().len() - 1] == last);
                    assert forall|i: int| 0 <= i < opt_items(init).len() implies node_ok::<A, Rf, R>(r0, #[trigger] opt_items(init)[i], d) by {
                        assert(opt_items(init)[i] == suffix.items()[i]);
                    }
                    lemma_nodes_seq_push::<A, Rf, R>(r0, opt_items(init), last, d);
                }
                let rest = Self::deep_right_with(refs, prefix, deeper, init, Ghost(d));
                proof {
                    lemma_node_extends::<A, Rf, R>(r0, *refs, last, d);
                    assert(Tree(layer).seq_in(r0, d) =~= rest.seq_in(*refs, d) + node_elems::<A, Rf, R>(r0, last, d));
                }
                Some((rest, last))
            },
        }
    }

    /// A tree level from a prefix, a deeper tree and an optional suffix; an empty suffix is
    /// refilled from the back of the deeper tree.
    fn deep_right_with<R: FingerTreeRefs<A, Rf>>(refs: &mut R, prefix: Digit<Rf>, deeper: Rf, suffix: Option<Digit<Rf>>, Ghost(d): Ghost<nat>) -> (r: Self)
        requires
            nodes_wf::<A, Rf, R>(*old(refs), prefix.items(), d),
            nodes_wf::<A, Rf, R>(*old(refs), opt_items(suffix), d),
            has_tree::<A, Rf, R>(*old(refs), deeper),
            get_tree::<A, Rf, R>(*old(refs), deeper).wf_in(*old(refs), d + 1),
            room_for::<A, Rf, R>(*old(refs), get_tree::<A, Rf, R>(*old(refs), deeper).spec_height() + 17),
        ensures
            refs_extend::<A, Rf, R>(*final(refs), *old(refs)),
            spent::<A, Rf, R>(*final(refs), *old(refs), get_tree::<A, Rf, R>(*old(refs), deeper).spec_height() + 17),
            r.spec_height() <= get_tree::<A, Rf, R>(*old(refs), deeper).spec_height() + 5,
            r.wf_in(*final(refs), d),
            r.seq_in(*final(refs), d) == nodes_seq::<A, Rf, R>(*old(refs), prefix.items(), d) + get_tree::<A, Rf, R>(*old(refs), deeper).seq_in(*old(refs), d + 1)
                + nodes_seq::<A, Rf, R>(*old(refs), opt_items(suffix), d),
        decreases get_tree::<A, Rf, R>(*old(refs), deeper).spec_height() + 1, 0nat,
    {
        let ghost r0 = *refs;
        let ghost inner_seq = get_tree::<A, Rf, R>(r0, deeper).seq_in(r0, d + 1);
        let ghost p = nodes_seq::<A, Rf, R>(r0, prefix.items(), d);
        proof {
            lemma_store_extends_refl::<Node<A, Rf>, Rf, R>(r0);
            lemma_store_extends_refl::<Tree<A, Rf>, Rf, R>(r0);
        }
        match suffix {
            Some(suffix) => Self::deep(refs, prefix, deeper, suffix, Ghost(d)),
            None => {
                proof {
                    assert(nodes_seq::<A, Rf, R>(r0, Seq::<Rf>::empty(), d) =~= Seq::<A>::empty());
                }
                let inner = refs.clone_tree_ref(&deeper);
                match Self::view_back_with(refs, inner.0, Ghost(d + 1)) {
                    Some((rest, node)) => {
                        let ghost r1 = *refs;
                        let suffix = Node::to_digit(refs, &node, Ghost(d));
                        let deeper = refs.alloc_tree(rest);
                        let ghost r2 = *refs;
                        proof {
                            lemma_nodes_extends::<A, Rf, R>(r0, r2, prefix.items(), d);
                            lemma_nodes_extends::<A, Rf, R>(r1, r2, suffix.items(), d);
                            rest.lemma_extends(r1, r2, d + 1);
                            lemma_refs_extend_trans::<A, Rf, R>(r0, r1, r2);
                        }
                        let r = Self::deep(refs, prefix, deeper, suffix, Ghost(d));
                        proof {
                            assert(r.seq_in(r2, d) =~= p + inner_seq + Seq::<A>::empty());
                        }
                        r
                    },
                    None => {
                        proof {
                            lemma_nodes_extends::<A, Rf, R>(r0, *refs, prefix.items(), d);
                        }
                        let ghost r1 = *refs;
                        proof {
                            prefix.lemma_items_len();
                            lemma_digit_room(prefix.items().len());
                        }
                        let r = Self::from_nodes(refs, prefix, Ghost(d));
                        proof {
                            lemma_refs_extend_trans::<A, Rf, R>(r0, r1, *refs);
                            assert(r.seq_in(*refs, d) =~= p + inner_seq + Seq::<A>::empty());
                        }
                        r
                    },
                }
            },
        }
    }

    fn push_front_mut<R: FingerTreeRefs<A, Rf>>(&mut self, refs: &mut R, node: Rf, Ghost(d): Ghost<nat>)
        requires
            old(self).wf_in(*old(refs), d),
            node_ok::<A, Rf, R>(*old(refs), node, d),
            room_for::<A, Rf, R>(*old(refs), 2 * old(self).spec_height() + 1),
        ensures
            refs_extend::<A, Rf, R>(*final(refs), *old(refs)),
            spent::<A, Rf, R>(*final(refs), *old(refs), 2 * old(self).spec_height() + 1),
            final(self).spec_height() <= old(self).spec_height() + 1,
            final(self).wf_in(*final(refs), d),
            final(self).seq_in(*final(refs), d) == node_elems::<A, Rf, R>(*old(refs), node, d) + old(self).seq_in(*old(refs), d),
            old(self).is_empty_tree() ==> final(self).spec_height() == 0,
    {
        if self.is_empty() {
            *self = Self::single(refs, node, Ghost(d));
            proof {
                lemma_store_extends_refl::<Node<A, Rf>, Rf, R>(*refs);
                lemma_store_extends_refl::<Tree<A, Rf>, Rf, R>(*refs);
                assert(node_elems::<A, Rf, R>(*old(refs), node, d) + old(self).seq_in(*old(refs), d) =~= node_elems::<A, Rf, R>(*old(refs), node, d));
            }
            return;
        }
        let mut old_tree = Self::empty();
        std::mem::swap(&mut old_tree, self);
        *self = old_tree.push_front(refs, node, Ghost(d));
    }

    fn push_back_mut<R: FingerTreeRefs<A, Rf>>(&mut self, refs: &mut R, node: Rf, Ghost(d): Ghost<nat>)
        requires
            old(self).wf_in(*old(refs), d),
            node_ok::<A, Rf, R>(*old(refs), node, d),
            room_for::<A, Rf, R>(*old(refs), 2 * old(self).spec_height() + 1),
        ensures
            refs_extend::<A, Rf, R>(*final(refs), *old(refs)),
            spent::<A, Rf, R>(*final(refs), *old(refs), 2 * old(self).spec_height() + 1),
            final(self).spec_height() <= old(self).spec_height() + 1,
            final(self).wf_in(*final(refs), d),
            final(self).seq_in(*final(refs), d) == old(self).seq_in(*old(refs), d) + node_elems::<A, Rf, R>(*old(refs), node, d),
            old(self).is_empty_tree() ==> final(self).spec_height() == 0,
    {
        if self.is_empty() {
            *self = Self::single(refs, node, Ghost(d));
            proof {
                lemma_store_extends_refl::<Node<A, Rf>, Rf, R>(*refs);
                lemma_store_extends_refl::<Tree<A, Rf>, Rf, R>(*refs);
                assert(old(self).seq_in(*old(refs), d) + node_elems::<A, Rf, R>(*old(refs), node, d) =~= node_elems::<A, Rf, R>(*old(refs), node, d));
            }
            return;
        }
        let mut old_tree = Self::empty();
        std::mem::swap(&mut old_tree, self);
        *self = old_tree.push_back(refs, node, Ghost(d));
    }

    fn is_empty(&self) -> (r: bool)
        ensures
            r == self.is_empty_tree(),
    {
        matches!(self.0, TreeInner::Empty)
    }
}

/// `pred` can be called on every measure and answers the same for the same measure.
pub open spec fn is_measure_pred<M, F: Fn(&M) -> bool>(pred: F) -> bool {
    &&& forall|m: M| #[trigger] pred.requires((&m,))
    &&& forall|m: M, b1: bool, b2: bool| #[trigger] pred.ensures((&m,), b1) && #[trigger] pred.ensures((&m,), b2) ==> b1 == b2
}

/// `pred` holds on `m`.
pub open spec fn pred_holds<M, F: Fn(&M) -> bool>(pred: F, m: M) -> bool {
    pred.ensures((&m,), true)
}

/// `pred` answers `false` on `m`.
pub open spec fn pred_fails<M, F: Fn(&M) -> bool>(pred: F, m: M) -> bool {
    pred.ensures((&m,), false)
}

fn call_pred<M, F: Fn(&M) -> bool>(pred: &F, m: &M) -> (b: bool)
    requires
        is_measure_pred(*pred),
    ensures
        b == pred_holds(*pred, *m),
        !b ==> pred_fails(*pred, *m),
{
    let b = pred(m);
    proof {
        if !b && pred_holds(*pred, *m) {
            assert(pred.ensures((m,), false) && pred.ensures((m,), true));
        }
    }
    b
}

/// Merging the measures of two parts one after the other merges the measure of the whole.
pub proof fn lemma_offset_concat<A: Measured>(offset: A::Measure, a: Seq<A>, b: Seq<A>)
    ensures
        offset.spec_merge(measure_of(a)).spec_merge(measure_of(b)) == offset.spec_merge(measure_of(a + b)),
{
    lemma_measure_concat(a, b);
    A::Measure::lemma_merge_assoc(offset, measure_of(a), measure_of(b));
}

/// What splitting the nodes `s` of a digit gives: the node at which `pred` first holds on
/// `offset` merged with the measure so far, with the nodes before and after it.
pub open spec fn digit_split_ok<A: Measured, Rf, R: RefStore<Node<A, Rf>, Rf>, F: Fn(&A::Measure) -> bool>(
    refs: R,
    s: Seq<Rf>,
    offset: A::Measure,
    pred: F,
    r: Option<(Option<Digit<Rf>>, Rf, Option<Digit<Rf>>)>,
    d: nat,
) -> bool {
    match r {
        None => pred_fails(pred, offset.spec_merge(measure_of(nodes_seq::<A, Rf, R>(refs, s, d)))),
        Some((before, x, after)) => {
            &&& s == opt_items(before) + seq![x] + opt_items(after)
            &&& pred_holds(pred, offset.spec_merge(measure_of(nodes_seq::<A, Rf, R>(refs, opt_items(before) + seq![x], d))))
            &&& before is Some ==> pred_fails(pred, offset.spec_merge(measure_of(nodes_seq::<A, Rf, R>(refs, opt_items(before), d))))
        },
    }
}

fn digit_split_offset<A: Measured, Rf: Copy, R: FingerTreeRefs<A, Rf>, F: Fn(&A::Measure) -> bool>(
    digit: Digit<Rf>,
    offset: A::Measure,
    pred: &F,
    refs: &R,
    Ghost(d): Ghost<nat>,
) -> (r: Option<(Option<Digit<Rf>>, Rf, Option<Digit<Rf>>)>)
    requires
        nodes_wf::<A, Rf, R>(*refs, digit.items(), d),
        is_measure_pred(*pred),
    ensures
        digit_split_ok::<A, Rf, R, F>(*refs, digit.items(), offset, *pred, r, d),
    decreases digit.items().len(),
{
    let ghost s = digit.items();
    let (head, tail) = digit.view_front();
    proof {
        assert(s[0] == head);
        assert(seq![head] + opt_items(tail) =~= s);
    }
    let mh = node_measure(refs, &head, Ghost(d));
    let after_head = offset.merge(mh);
    proof {
        lemma_nodes_seq_single::<A, Rf, R>(*refs, head, d);
    }
    if call_pred(pred, &after_head) {
        proof {
            assert(opt_items(None::<Digit<Rf>>) + seq![head] =~= seq![head]);
            assert(opt_items(None::<Digit<Rf>>) + seq![head] + opt_items(tail) =~= s);
        }
        Some((None, head, tail))
    } else {
        let tail = match tail {
            None => {
                proof {
                    assert(s =~= seq![head]);
                }
                return None;
            },
            Some(tail) => tail,
        };
        proof {
            assert forall|i: int| 0 <= i < tail.items().len() implies node_ok::<A, Rf, R>(*refs, #[trigger] tail.items()[i], d) by {
                assert(tail.items()[i] == s[i + 1]);
            }
            lemma_nodes_seq_concat::<A, Rf, R>(*refs, seq![head], tail.items(), d);
            lemma_offset_concat::<A>(offset, node_elems::<A, Rf, R>(*refs, head, d), nodes_seq::<A, Rf, R>(*refs, tail.items(), d));
        }
        match digit_split_offset(tail, after_head, pred, refs, Ghost(d)) {
            None => None,
            Some((before, node, after)) => {
                let new_before = Digit::prepend_to_option(head, before);
                proof {
                    let b = opt_items(before);
                    assert(new_before.items() == seq![head] + b);
                    assert(s =~= new_before.items() + seq![node] + opt_items(after));
                    lemma_nodes_seq_concat::<A, Rf, R>(*refs, seq![head], b + seq![node], d);
                    assert(seq![head] + (b + seq![node]) =~= new_before.items() + seq![node]);
                    lemma_offset_concat::<A>(offset, node_elems::<A, Rf, R>(*refs, head, d), nodes_seq::<A, Rf, R>(*refs, b + seq![node], d));
                    lemma_nodes_seq_concat::<A, Rf, R>(*refs, seq![head], b, d);
                    lemma_offset_concat::<A>(offset, node_elems::<A, Rf, R>(*refs, head, d), nodes_seq::<A, Rf, R>(*refs, b, d));
                    if before is None {
                        assert(new_before.items() =~= seq![head]);
                        assert(nodes_seq::<A, Rf, R>(*refs, b, d) =~= Seq::<A>::empty());
                        assert(node_elems::<A, Rf, R>(*refs, head, d) + Seq::<A>::empty() =~= node_elems::<A, Rf, R>(*refs, head, d));
                    }
                }
                Some((Some(new_before), node, after))
            },
        }
    }
}

/// What splitting the elements `s` of a tree level gives: the node at which `pred` first
/// holds on `offset` merged with the measure so far, with the trees before and after it.
pub open spec fn split_ok<A: Measured, Rf, R: RefStore<Node<A, Rf>, Rf> + RefStore<Tree<A, Rf>, Rf>, F: Fn(&A::Measure) -> bool>(
    refs: R,
    s: Seq<A>,
    offset: A::Measure,
    pred: F,
    r: Option<(Tree<A, Rf>, Rf, Tree<A, Rf>)>,
    d: nat,
) -> bool {
    match r {
        None => s.len() == 0 || pred_fails(pred, offset.spec_merge(measure_of(s))),
        Some((front, x, back)) => {
            &&& front.wf_in(refs, d)
            &&& node_ok::<A, Rf, R>(refs, x, d)
            &&& back.wf_in(refs, d)
            &&& s == front.seq_in(refs, d) + node_elems::<A, Rf, R>(refs, x, d) + back.seq_in(refs, d)
            &&& pred_holds(pred, offset.spec_merge(measure_of(front.seq_in(refs, d) + node_elems::<A, Rf, R>(refs, x, d))))
            &&& front.seq_in(refs, d).len() > 0 ==> pred_fails(pred, offset.spec_merge(measure_of(front.seq_in(refs, d))))
        },
    }
}

impl<A: Measured, Rf: Copy> Tree<A, Rf> {
    /// Splits the elements of a tree level at the first place where `pred` holds on `offset`
    /// merged with the measure of the elements so far.
    fn split_offset_with<R: FingerTreeRefs<A, Rf>, F: Fn(&A::Measure) -> bool>(
        refs: &mut R,
        layer: TreeInner<A, Rf>,
        offset: A::Measure,
        pred: &F,
        Ghost(d): Ghost<nat>,
    ) -> (r: Option<(Self, Rf, Self)>)
        requires
            Tree(layer).wf_in(*old(refs), d),
            room_for::<A, Rf, R>(*old(refs), split_room(Tree(layer).spec_height())),
            is_measure_pred(*pred),
        ensures
            refs_extend::<A, Rf, R>(*final(refs), *old(refs)),
            spent::<A, Rf, R>(*final(refs), *old(refs), split_room(Tree(layer).spec_height())),
            r matches Some((f, _, b)) ==> f.spec_height() <= split_height(Tree(layer).spec_height()) && b.spec_height() <= split_height(Tree(layer).spec_height()),
            split_ok::<A, Rf, R, F>(*final(refs), Tree(layer).seq_in(*old(refs), d), offset, *pred, r, d),
        decreases Tree(layer).spec_height(), 1nat,
    {
        let ghost r0 = *refs;
        proof {
            lemma_store_extends_refl::<Node<A, Rf>, Rf, R>(r0);
            lemma_store_extends_refl::<Tree<A, Rf>, Rf, R>(r0);
        }
        match layer {
            TreeInner::Empty => None,
            TreeInner::Single { node, .. } => {
                let m = node_measure(refs, &node, Ghost(d));
                if call_pred(pred, &offset.merge(m)) {
                    let front = Self::empty();
                    let back = Self::empty();
                    proof {
                        front.lemma_empty(r0, d);
                        let e = node_elems::<A, Rf, R>(r0, node, d);
                        assert(Seq::<A>::empty() + e + Seq::<A>::empty() =~= e);
                        assert(Seq::<A>::empty() + e =~= e);
                    }
                    Some((front, node, back))
                } else {
                    None
                }
            },
            TreeInner::Deep { measure, prefix, deeper, suffix, height } => {
                let t = Tree(TreeInner::Deep { measure, prefix, deeper, suffix, height });
                let mp = digit_measure(&prefix, refs, Ghost(d));
                let after_prefix = offset.duplicate().merge(mp);
                if call_pred(pred, &after_prefix) {
                    return Self::split_in_prefix(refs, t, offset, pred, Ghost(d));
                }
                let md = tree_measure(refs, &deeper, Ghost(d + 1));
                let after_deeper = after_prefix.duplicate().merge(md);
                proof {
                    lemma_offset_concat::<A>(offset, nodes_seq::<A, Rf, R>(r0, prefix.items(), d), get_tree::<A, Rf, R>(r0, deeper).seq_in(r0, d + 1));
                }
                if call_pred(pred, &after_deeper) {
                    Self::split_in_deeper(refs, t, offset, pred, Ghost(d))
                } else {
                    Self::split_in_suffix(refs, t, offset, pred, Ghost(d))
                }
            },
        }
    }

    /// `split_offset_with` when `pred` holds at the end of the prefix.
    #[verifier::rlimit(40)]
    fn split_in_prefix<R: FingerTreeRefs<A, Rf>, F: Fn(&A::Measure) -> bool>(
        refs: &mut R,
        t: Self,
        offset: A::Measure,
        pred: &F,
        Ghost(d): Ghost<nat>,
    ) -> (r: Option<(Self, Rf, Self)>)
        requires
            t.wf_in(*old(refs), d),
            t.0 is Deep,
            room_for::<A, Rf, R>(*old(refs), split_room(t.spec_height())),
            is_measure_pred(*pred),
            pred_holds(*pred, offset.spec_merge(measure_of(nodes_seq::<A, Rf, R>(*old(refs), t.0->prefix.items(), d)))),
        ensures
            refs_extend::<A, Rf, R>(*final(refs), *old(refs)),
            spent::<A, Rf, R>(*final(refs), *old(refs), split_room(t.spec_height())),
            r matches Some((f, _, b)) ==> f.spec_height() <= split_height(t.spec_height()) && b.spec_height() <= split_height(t.spec_height()),
            r is Some,
            split_ok::<A, Rf, R, F>(*final(refs), t.seq_in(*old(refs), d), offset, *pred, r, d),
    {
        let ghost r0 = *refs;
        let ghost s = t.seq_in(r0, d);
        let (prefix, deeper, suffix) = match t.0 {
            TreeInner::Deep { prefix, deeper, suffix, .. } => (prefix, deeper, suffix),
            _ => {
                proof {
                    assert(false);
                }
                return None;
            },
        };
        let split = digit_split_offset(prefix, offset, pred, refs, Ghost(d));
        let (before, node, after) = match split {
            Some(x) => x,
            None => {
                proof {
                    assert(false);
                }
                return None;
            },
        };
        proof {
            assert forall|i: int| 0 <= i < opt_items(before).len() implies node_ok::<A, Rf, R>(r0, #[trigger] opt_items(before)[i], d) by {
                assert(opt_items(before)[i] == prefix.items()[i]);
            }
            assert forall|i: int| 0 <= i < opt_items(after).len() implies node_ok::<A, Rf, R>(r0, #[trigger] opt_items(after)[i], d) by {
                assert(opt_items(after)[i] == prefix.items()[opt_items(before).len() + 1 + i]);
            }
            assert(prefix.items()[opt_items(before).len() as int] == node);
        }
        proof {
            prefix.lemma_items_len();
            lemma_small_room(opt_items(before).len());
            lemma_split_room(get_tree::<A, Rf, R>(r0, deeper).spec_height(), t.spec_height());
        }
        let front = Self::from_optional_digit(refs, before, Ghost(d));
        let ghost r1 = *refs;
        proof {
            lemma_nodes_extends::<A, Rf, R>(r0, r1, opt_items(after), d);
            lemma_nodes_extends::<A, Rf, R>(r0, r1, suffix.items(), d);
            get_tree::<A, Rf, R>(r0, deeper).lemma_extends(r0, r1, d + 1);
        }
        let back = Self::deep_left_with(refs, after, deeper, suffix, Ghost(d));
        let ghost r2 = *refs;
        proof {
            lemma_refs_extend_trans::<A, Rf, R>(r0, r1, r2);
            front.lemma_extends(r1, r2, d);
            lemma_node_extends::<A, Rf, R>(r0, r2, node, d);
            let b = opt_items(before);
            let a = opt_items(after);
            lemma_nodes_seq_concat::<A, Rf, R>(r0, b, seq![node], d);
            lemma_nodes_seq_concat::<A, Rf, R>(r0, b + seq![node], a, d);
            lemma_nodes_seq_single::<A, Rf, R>(r0, node, d);
            assert(s =~= front.seq_in(r2, d) + node_elems::<A, Rf, R>(r2, node, d) + back.seq_in(r2, d));
        }
        Some((front, node, back))
    }

    /// `split_offset_with` when `pred` fails at the end of the deeper tree.
    #[verifier::rlimit(40)]
    fn split_in_suffix<R: FingerTreeRefs<A, Rf>, F: Fn(&A::Measure) -> bool>(
        refs: &mut R,
        t: Self,
        offset: A::Measure,
        pred: &F,
        Ghost(d): Ghost<nat>,
    ) -> (r: Option<(Self, Rf, Self)>)
        requires
            t.wf_in(*old(refs), d),
            t.0 is Deep,
            room_for::<A, Rf, R>(*old(refs), split_room(t.spec_height())),
            is_measure_pred(*pred),
            pred_fails(*pred, offset.spec_merge(measure_of(nodes_seq::<A, Rf, R>(*old(refs), t.0->prefix.items(), d)
                + get_tree::<A, Rf, R>(*old(refs), t.0->deeper).seq_in(*old(refs), d + 1)))),
        ensures
            refs_extend::<A, Rf, R>(*final(refs), *old(refs)),
            spent::<A, Rf, R>(*final(refs), *old(refs), split_room(t.spec_height())),
            r matches Some((f, _, b)) ==> f.spec_height() <= split_height(t.spec_height()) && b.spec_height() <= split_height(t.spec_height()),
            split_ok::<A, Rf, R, F>(*final(refs), t.seq_in(*old(refs), d), offset, *pred, r, d),
    {
        let ghost r0 = *refs;
        let ghost s = t.seq_in(r0, d);
        let (prefix, deeper, suffix) = match t.0 {
            TreeInner::Deep { prefix, deeper, suffix, .. } => (prefix, deeper, suffix),
            _ => {
                proof {
                    assert(false);
                }
                return None;
            },
        };
        let ghost pd = nodes_seq::<A, Rf, R>(r0, prefix.items(), d) + get_tree::<A, Rf, R>(r0, deeper).seq_in(r0, d + 1);
        let mp = digit_measure(&prefix, refs, Ghost(d));
        let md = tree_measure(refs, &deeper, Ghost(d + 1));
        let after_deeper = offset.merge(mp).merge(md);
        proof {
            lemma_offset_concat::<A>(offset, nodes_seq::<A, Rf, R>(r0, prefix.items(), d), get_tree::<A, Rf, R>(r0, deeper).seq_in(r0, d + 1));
            lemma_offset_concat::<A>(offset, pd, nodes_seq::<A, Rf, R>(r0, suffix.items(), d));
        }
        let split = digit_split_offset(suffix, after_deeper, pred, refs, Ghost(d));
        let (before, node, after) = match split {
            Some(x) => x,
            None => {
                proof {
                    assert(s =~= pd + nodes_seq::<A, Rf, R>(r0, suffix.items(), d));
                }
                return None;
            },
        };
        proof {
            assert forall|i: int| 0 <= i < opt_items(before).len() implies node_ok::<A, Rf, R>(r0, #[trigger] opt_items(before)[i], d) by {
                assert(opt_items(before)[i] == suffix.items()[i]);
            }
            assert forall|i: int| 0 <= i < opt_items(after).len() implies node_ok::<A, Rf, R>(r0, #[trigger] opt_items(after)[i], d) by {
                assert(opt_items(after)[i] == suffix.items()[opt_items(before).len() + 1 + i]);
            }
            assert(suffix.items()[opt_items(before).len() as int] == node);
        }
        proof {
            suffix.lemma_items_len();
            lemma_small_room(opt_items(after).len());
            lemma_split_room(get_tree::<A, Rf, R>(r0, deeper).spec_height(), t.spec_height());
        }
        let front = Self::deep_right_with(refs, prefix, deeper, before, Ghost(d));
        let ghost r1 = *refs;
        proof {
            lemma_nodes_extends::<A, Rf, R>(r0, r1, opt_items(after), d);
        }
        let back = Self::from_optional_digit(refs, after, Ghost(d));
        let ghost r2 = *refs;
        proof {
            lemma_refs_extend_trans::<A, Rf, R>(r0, r1, r2);
            front.lemma_extends(r1, r2, d);
            lemma_node_extends::<A, Rf, R>(r0, r2, node, d);
            let b = opt_items(before);
            let a = opt_items(after);
            let bs = nodes_seq::<A, Rf, R>(r0, b, d);
            let ne = node_elems::<A, Rf, R>(r0, node, d);
            lemma_nodes_seq_concat::<A, Rf, R>(r0, b, seq![node], d);
            lemma_nodes_seq_concat::<A, Rf, R>(r0, b + seq![node], a, d);
            lemma_nodes_seq_single::<A, Rf, R>(r0, node, d);
            assert(front.seq_in(r2, d) =~= pd + bs);
            assert(s =~= front.seq_in(r2, d) + ne + back.seq_in(r2, d));
            lemma_offset_concat::<A>(offset, pd, bs + ne);
            assert(pd + (bs + ne) =~= front.seq_in(r2, d) + ne);
            if b.len() > 0 {
                lemma_offset_concat::<A>(offset, pd, bs);
            } else {
                assert(bs =~= Seq::<A>::empty());
                assert(pd + bs =~= pd);
            }
        }
        Some((front, node, back))
    }
}

impl<A: Measured, Rf: Copy> Tree<A, Rf> {
    /// `split_offset_with` when `pred` fails at the end of the prefix and holds at the end
    /// of the deeper tree: the split goes down into the deeper tree, and then into the
    /// children of the branch found there.
    #[verifier::rlimit(100)]
    fn split_in_deeper<R: FingerTreeRefs<A, Rf>, F: Fn(&A::Measure) -> bool>(
        refs: &mut R,
        t: Self,
        offset: A::Measure,
        pred: &F,
        Ghost(d): Ghost<nat>,
    ) -> (r: Option<(Self, Rf, Self)>)
        requires
            t.wf_in(*old(refs), d),
            t.0 is Deep,
            room_for::<A, Rf, R>(*old(refs), split_room(t.spec_height())),
            is_measure_pred(*pred),
            pred_fails(*pred, offset.spec_merge(measure_of(nodes_seq::<A, Rf, R>(*old(refs), t.0->prefix.items(), d)))),
            pred_holds(*pred, offset.spec_merge(measure_of(nodes_seq::<A, Rf, R>(*old(refs), t.0->prefix.items(), d)
                + get_tree::<A, Rf, R>(*old(refs), t.0->deeper).seq_in(*old(refs), d + 1)))),
        ensures
            refs_extend::<A, Rf, R>(*final(refs), *old(refs)),
            spent::<A, Rf, R>(*final(refs), *old(refs), split_room(t.spec_height())),
            r matches Some((f, _, b)) ==> f.spec_height() <= split_height(t.spec_height()) && b.spec_height() <= split_height(t.spec_height()),
            r is Some,
            split_ok::<A, Rf, R, F>(*final(refs), t.seq_in(*old(refs), d), offset, *pred, r, d),
        decreases t.spec_height(), 0nat,
    {
        let ghost r0 = *refs;
        let ghost s = t.seq_in(r0, d);
        let (prefix, deeper, suffix) = match t.0 {
            TreeInner::Deep { prefix, deeper, suffix, .. } => (prefix, deeper, suffix),
            _ => {
                proof {
                    assert(false);
                }
                return None;
            },
        };
        let ghost ps = nodes_seq::<A, Rf, R>(r0, prefix.items(), d);
        let ghost ds = get_tree::<A, Rf, R>(r0, deeper).seq_in(r0, d + 1);
        let ghost ss = nodes_seq::<A, Rf, R>(r0, suffix.items(), d);
        let mp = digit_measure(&prefix, refs, Ghost(d));
        let after_prefix = offset.merge(mp);
        let inner = refs.clone_tree_ref(&deeper);
        proof {
            lemma_offset_concat::<A>(offset, ps, ds);
        }
        proof {
            assert(Tree(inner.0) == inner);
            lemma_split_room(inner.spec_height(), t.spec_height());
        }
        let split = Self::split_offset_with(refs, inner.0, after_prefix.duplicate(), pred, Ghost(d + 1));
        let ghost r1 = *refs;
        let (before, branch, after) = match split {
            Some(x) => x,
            None => {
                proof {
                    if ds.len() == 0 {
                        lemma_measure_empty::<A>();
                        A::Measure::lemma_empty_identity(after_prefix);
                        assert(ds =~= Seq::<A>::empty());
                        assert(ps + ds =~= ps);
                    }
                    assert(false);
                }
                return None;
            },
        };
        let ghost bs = before.seq_in(r1, d + 1);
        let ghost br = node_elems::<A, Rf, R>(r1, branch, d + 1);
        let ghost afs = after.seq_in(r1, d + 1);
        let digit = Node::to_digit(refs, &branch, Ghost(d));
        let mb = before.measure();
        let split2 = digit_split_offset(digit, after_prefix.merge(mb), pred, refs, Ghost(d));
        proof {
            lemma_offset_concat::<A>(after_prefix, bs, br);
        }
        let (ib, node, ia) = match split2 {
            Some(x) => x,
            None => {
                proof {
                    assert(false);
                }
                return None;
            },
        };
        let ghost ibs = nodes_seq::<A, Rf, R>(r1, opt_items(ib), d);
        let ghost ias = nodes_seq::<A, Rf, R>(r1, opt_items(ia), d);
        let ghost ne = node_elems::<A, Rf, R>(r1, node, d);
        proof {
            assert forall|i: int| 0 <= i < opt_items(ib).len() implies node_ok::<A, Rf, R>(r1, #[trigger] opt_items(ib)[i], d) by {
                assert(opt_items(ib)[i] == digit.items()[i]);
            }
            assert forall|i: int| 0 <= i < opt_items(ia).len() implies node_ok::<A, Rf, R>(r1, #[trigger] opt_items(ia)[i], d) by {
                assert(opt_items(ia)[i] == digit.items()[opt_items(ib).len() + 1 + i]);
            }
            assert(digit.items()[opt_items(ib).len() as int] == node);
            lemma_nodes_seq_concat::<A, Rf, R>(r1, opt_items(ib), seq![node], d);
            lemma_nodes_seq_concat::<A, Rf, R>(r1, opt_items(ib) + seq![node], opt_items(ia), d);
            lemma_nodes_seq_single::<A, Rf, R>(r1, node, d);
            assert(br == ibs + ne + ias);
            lemma_nodes_extends::<A, Rf, R>(r0, r1, prefix.items(), d);
            lemma_nodes_extends::<A, Rf, R>(r0, r1, suffix.items(), d);
        }
        let before_ref = refs.alloc_tree(before);
        let ghost r2 = *refs;
        proof {
            lemma_nodes_extends::<A, Rf, R>(r1, r2, prefix.items(), d);
            lemma_nodes_extends::<A, Rf, R>(r1, r2, opt_items(ib), d);
            before.lemma_extends(r1, r2, d + 1);
        }
        let front = Self::deep_right_with(refs, prefix, before_ref, ib, Ghost(d));
        let ghost r3 = *refs;
        proof {
            lemma_refs_extend_trans::<A, Rf, R>(r1, r2, r3);
            lemma_nodes_extends::<A, Rf, R>(r1, r3, suffix.items(), d);
            lemma_nodes_extends::<A, Rf, R>(r1, r3, opt_items(ia), d);
            after.lemma_extends(r1, r3, d + 1);
        }
        let after_ref = refs.alloc_tree(after);
        let ghost r4 = *refs;
        proof {
            lemma_nodes_extends::<A, Rf, R>(r3, r4, suffix.items(), d);
            lemma_nodes_extends::<A, Rf, R>(r3, r4, opt_items(ia), d);
            after.lemma_extends(r3, r4, d + 1);
        }
        let back = Self::deep_left_with(refs, ia, after_ref, suffix, Ghost(d));
        let ghost r5 = *refs;
        proof {
            lemma_refs_extend_trans::<A, Rf, R>(r3, r4, r5);
            lemma_refs_extend_trans::<A, Rf, R>(r1, r3, r5);
            lemma_refs_extend_trans::<A, Rf, R>(r0, r1, r5);
            front.lemma_extends(r3, r5, d);
            lemma_node_extends::<A, Rf, R>(r1, r5, node, d);
            let fs = ps + bs + ibs;
            assert(front.seq_in(r5, d) =~= fs);
            assert(back.seq_in(r5, d) =~= ias + afs + ss);
            assert(ds =~= bs + br + afs);
            assert(s =~= fs + ne + (ias + afs + ss));
            lemma_offset_concat::<A>(offset, ps, bs);
            lemma_offset_concat::<A>(offset, ps + bs, ibs + ne);
            assert(ps + bs + (ibs + ne) =~= fs + ne);
            if opt_items(ib).len() > 0 {
                lemma_offset_concat::<A>(offset, ps + bs, ibs);
            } else if bs.len() > 0 {
                assert(ibs =~= Seq::<A>::empty());
                assert(fs =~= ps + bs);
            } else {
                assert(ibs =~= Seq::<A>::empty());
                assert(fs =~= ps);
            }
        }
        Some((front, node, back))
    }
}

/// Nodes of one level, in order, with their merged measure.
struct NodeList<A: Measured, Rf> {
    items: Vec<Rf>,
    measure: A::Measure,
}

impl<A: Measured, Rf: Copy> NodeList<A, Rf> {
    /// Well-formed nodes of level `d` and their merged measure.
    spec fn wf_in<R: RefStore<Node<A, Rf>, Rf>>(&self, refs: R, d: nat) -> bool {
        &&& nodes_wf::<A, Rf, R>(refs, self.items@, d)
        &&& self.measure == measure_of(nodes_seq::<A, Rf, R>(refs, self.items@, d))
    }

    fn new() -> (r: Self)
        ensures
            r.items@ == Seq::<Rf>::empty(),
            r.measure == A::Measure::spec_empty(),
    {
        NodeList { items: Vec::new(), measure: A::Measure::empty() }
    }

    fn push(&mut self, node: Rf, measure: A::Measure)
        ensures
            final(self).items@ == old(self).items@.push(node),
            final(self).measure == old(self).measure.spec_merge(measure),
    {
        let mut old_measure = A::Measure::empty();
        std::mem::swap(&mut old_measure, &mut self.measure);
        self.measure = old_measure.merge(measure);
        self.items.push(node);
    }

    proof fn lemma_new_wf<R: RefStore<Node<A, Rf>, Rf>>(&self, refs: R, d: nat)
        requires
            self.items@ == Seq::<Rf>::empty(),
            self.measure == A::Measure::spec_empty(),
        ensures
            self.wf_in(refs, d),
            nodes_seq::<A, Rf, R>(refs, self.items@, d) == Seq::<A>::empty(),
    {
        lemma_measure_empty::<A>();
    }
}

/// Appends the nodes of a digit to `v`.
fn push_digit_items<Rf: Copy>(v: &mut Vec<Rf>, digit: Digit<Rf>)
    ensures
        final(v)@ == old(v)@ + digit.items(),
{
    match digit {
        Digit::One(a) => {
            v.push(a);
        },
        Digit::Two(a, b) => {
            v.push(a);
            v.push(b);
        },
        Digit::Three(a, b, c) => {
            v.push(a);
            v.push(b);
            v.push(c);
        },
        Digit::Four(a, b, c, e) => {
            v.push(a);
            v.push(b);
            v.push(c);
            v.push(e);
        },
    }
    assert(v@ =~= old(v)@ + digit.items());
}

impl<A: Measured, Rf: Copy> Node<A, Rf> {
    /// Groups nodes of level `d` into branches of level `d + 1`: three at a time, and two
    /// at a time when two or four remain.
    #[verifier::rlimit(60)]
    fn lift_list<R: FingerTreeRefs<A, Rf>>(refs: &mut R, input: Vec<Rf>, Ghost(d): Ghost<nat>) -> (r: NodeList<A, Rf>)
        requires
            nodes_wf::<A, Rf, R>(*old(refs), input@, d),
            input@.len() != 1,
            room_for::<A, Rf, R>(*old(refs), input@.len()),
        ensures
            refs_extend::<A, Rf, R>(*final(refs), *old(refs)),
            spent::<A, Rf, R>(*final(refs), *old(refs), r.items@.len()),
            r.items@.len() * 2 <= input@.len(),
            r.wf_in(*final(refs), d + 1),
            nodes_seq::<A, Rf, R>(*final(refs), r.items@, d + 1) == nodes_seq::<A, Rf, R>(*old(refs), input@, d),
    {
        let ghost r0 = *refs;
        let ghost s = input@;
        let n = input.len();
        let mut out = NodeList::new();
        let mut i: usize = 0;
        proof {
            lemma_store_extends_refl::<Node<A, Rf>, Rf, R>(r0);
            lemma_store_extends_refl::<Tree<A, Rf>, Rf, R>(r0);
            out.lemma_new_wf(r0, d + 1);
            assert(s.take(0) =~= Seq::<Rf>::empty());
            assert(nodes_seq::<A, Rf, R>(r0, Seq::<Rf>::empty(), d) =~= Seq::<A>::empty());
        }
        while i < n
            invariant
                n == s.len(),
                input@ == s,
                i <= n,
                n - i != 1,
                refs_extend::<A, Rf, R>(*refs, r0),
                room_for::<A, Rf, R>(r0, n as nat),
                spent::<A, Rf, R>(*refs, r0, out.items@.len()),
                out.items@.len() * 2 <= i,
                nodes_wf::<A, Rf, R>(r0, s, d),
                out.wf_in(*refs, d + 1),
                nodes_seq::<A, Rf, R>(*refs, out.items@, d + 1) == nodes_seq::<A, Rf, R>(r0, s.take(i as int), d),
            decreases n - i,
        {
            let ghost rc = *refs;
            let rem = n - i;
            let ghost x = s[i as int];
            let ghost y = s[i + 1];
            proof {
                lemma_node_extends::<A, Rf, R>(r0, rc, x, d);
                lemma_node_extends::<A, Rf, R>(r0, rc, y, d);
                lemma_nodes_seq_push::<A, Rf, R>(r0, s.take(i as int), x, d);
                lemma_nodes_seq_push::<A, Rf, R>(r0, s.take(i as int).push(x), y, d);
                assert(s.take(i + 2) =~= s.take(i as int).push(x).push(y));
            }
            let node = if rem == 2 || rem == 4 {
                let node = Self::branch2(refs, input[i], input[i + 1], Ghost(d));
                i = i + 2;
                node
            } else {
                let ghost z = s[i + 2];
                proof {
                    lemma_node_extends::<A, Rf, R>(r0, rc, z, d);
                    lemma_nodes_seq_push::<A, Rf, R>(r0, s.take(i + 2), z, d);
                    assert(s.take(i + 3) =~= s.take(i + 2).push(z));
                }
                let node = Self::branch3(refs, input[i], input[i + 1], input[i + 2], Ghost(d));
                i = i + 3;
                node
            };
            let measure = node.measure.duplicate();
            let nref = refs.alloc_node(node);
            let ghost r1 = *refs;
            proof {
                node.lemma_extends(rc, r1, d + 1);
                lemma_nodes_extends::<A, Rf, R>(rc, r1, out.items@, d + 1);
                lemma_refs_extend_trans::<A, Rf, R>(r0, rc, r1);
                lemma_nodes_seq_push::<A, Rf, R>(r1, out.items@, nref, d + 1);
                lemma_measure_concat(nodes_seq::<A, Rf, R>(r1, out.items@, d + 1), node_elems::<A, Rf, R>(r1, nref, d + 1));
            }
            let ghost before = out.items@;
            out.push(nref, measure);
            proof {
                assert forall|k: int| 0 <= k < out.items@.len() implies node_ok::<A, Rf, R>(r1, #[trigger] out.items@[k], d + 1) by {
                    if k < before.len() {
                        assert(out.items@[k] == before[k]);
                    }
                }
            }
        }
        proof {
            assert(s.take(n as int) =~= s);
        }
        out
    }
}

impl<A: Measured, Rf: Copy> Tree<A, Rf> {
    /// Adds the nodes of `nodes` before the elements of `tree`, keeping their order.
    fn push_many_front<R: FingerTreeRefs<A, Rf>>(refs: &mut R, nodes: NodeList<A, Rf>, tree: Self, Ghost(d): Ghost<nat>) -> (r: Self)
        requires
            nodes.wf_in(*old(refs), d),
            tree.wf_in(*old(refs), d),
            nodes.items@.len() <= 8,
            room_for::<A, Rf, R>(*old(refs), 16 * tree.spec_height() + 136),
        ensures
            refs_extend::<A, Rf, R>(*final(refs), *old(refs)),
            spent::<A, Rf, R>(*final(refs), *old(refs), 16 * tree.spec_height() + 136),
            r.spec_height() <= tree.spec_height() + nodes.items@.len(),
            r.wf_in(*final(refs), d),
            r.seq_in(*final(refs), d) == nodes_seq::<A, Rf, R>(*old(refs), nodes.items@, d) + tree.seq_in(*old(refs), d),
    {
        let ghost r0 = *refs;
        let ghost s = nodes.items@;
        let ghost ts = tree.seq_in(r0, d);
        let ghost h0 = tree.spec_height();
        let items = nodes.items;
        let mut tree = tree;
        let mut j = items.len();
        proof {
            lemma_store_extends_refl::<Node<A, Rf>, Rf, R>(r0);
            lemma_store_extends_refl::<Tree<A, Rf>, Rf, R>(r0);
            assert(s.subrange(j as int, s.len() as int) =~= Seq::<Rf>::empty());
            assert(nodes_seq::<A, Rf, R>(r0, Seq::<Rf>::empty(), d) =~= Seq::<A>::empty());
            assert(Seq::<A>::empty() + ts =~= ts);
        }
        while j > 0
            invariant
                items@ == s,
                j <= s.len(),
                refs_extend::<A, Rf, R>(*refs, r0),
                s.len() <= 8,
                room_for::<A, Rf, R>(r0, 16 * h0 + 136),
                tree.spec_height() <= h0 + (s.len() - j),
                spent::<A, Rf, R>(*refs, r0, ((s.len() - j) * (2 * h0 + 17)) as nat),
                nodes_wf::<A, Rf, R>(r0, s, d),
                tree.wf_in(*refs, d),
                tree.seq_in(*refs, d) == nodes_seq::<A, Rf, R>(r0, s.subrange(j as int, s.len() as int), d) + ts,
            decreases j,
        {
            let ghost rc = *refs;
            j = j - 1;
            let node = items[j];
            proof {
                lemma_node_extends::<A, Rf, R>(r0, rc, node, d);
                lemma_nodes_seq_concat::<A, Rf, R>(r0, seq![node], s.subrange(j + 1, s.len() as int), d);
                lemma_nodes_seq_single::<A, Rf, R>(r0, node, d);
                assert(seq![node] + s.subrange(j + 1, s.len() as int) =~= s.subrange(j as int, s.len() as int));
            }
            proof {
                lemma_push_budget((s.len() - j - 1) as nat, h0);
                lemma_push_budget((s.len() - j) as nat, h0);
            }
            tree = tree.push_front(refs, node, Ghost(d));
            proof {
                lemma_refs_extend_trans::<A, Rf, R>(r0, rc, *refs);
            }
        }
        proof {
            assert(s.subrange(0, s.len() as int) =~= s);
            lemma_push_budget(s.len(), h0);
        }
        tree
    }

    /// Adds the nodes of `nodes` after the elements of `tree`, keeping their order.
    fn push_many_back<R: FingerTreeRefs<A, Rf>>(refs: &mut R, tree: Self, nodes: NodeList<A, Rf>, Ghost(d): Ghost<nat>) -> (r: Self)
        requires
            nodes.wf_in(*old(refs), d),
            tree.wf_in(*old(refs), d),
            nodes.items@.len() <= 8,
            room_for::<A, Rf, R>(*old(refs), 16 * tree.spec_height() + 136),
        ensures
            refs_extend::<A, Rf, R>(*final(refs), *old(refs)),
            spent::<A, Rf, R>(*final(refs), *old(refs), 16 * tree.spec_height() + 136),
            r.spec_height() <= tree.spec_height() + nodes.items@.len(),
            r.wf_in(*final(refs), d),
            r.seq_in(*final(refs), d) == tree.seq_in(*old(refs), d) + nodes_seq::<A, Rf, R>(*old(refs), nodes.items@, d),
    {
        let ghost r0 = *refs;
        let ghost s = nodes.items@;
        let ghost ts = tree.seq_in(r0, d);
        let ghost h0 = tree.spec_height();
        let items = nodes.items;
        let mut tree = tree;
        let mut j: usize = 0;
        proof {
            lemma_store_extends_refl::<Node<A, Rf>, Rf, R>(r0);
            lemma_store_extends_refl::<Tree<A, Rf>, Rf, R>(r0);
            assert(s.take(0) =~= Seq::<Rf>::empty());
            assert(nodes_seq::<A, Rf, R>(r0, Seq::<Rf>::empty(), d) =~= Seq::<A>::empty());
            assert(ts + Seq::<A>::empty() =~= ts);
        }
        while j < items.len()
            invariant
                items@ == s,
                j <= s.len(),
                refs_extend::<A, Rf, R>(*refs, r0),
                s.len() <= 8,
                room_for::<A, Rf, R>(r0, 16 * h0 + 136),
                tree.spec_height() <= h0 + (j),
                spent::<A, Rf, R>(*refs, r0, ((j) * (2 * h0 + 17)) as nat),
                nodes_wf::<A, Rf, R>(r0, s, d),
                tree.wf_in(*refs, d),
                tree.seq_in(*refs, d) == ts + nodes_seq::<A, Rf, R>(r0, s.take(j as int), d),
            decreases s.len() - j,
        {
            let ghost rc = *refs;
            let node = items[j];
            proof {
                lemma_node_extends::<A, Rf, R>(r0, rc, node, d);
                lemma_nodes_seq_push::<A, Rf, R>(r0, s.take(j as int), node, d);
                assert(s.take(j + 1) =~= s.take(j as int).push(node));
            }
            proof {
                lemma_push_budget(j as nat, h0);
                lemma_push_budget((j + 1) as nat, h0);
            }
            tree = tree.push_back(refs, node, Ghost(d));
            j = j + 1;
            proof {
                lemma_refs_extend_trans::<A, Rf, R>(r0, rc, *refs);
            }
        }
        proof {
            assert(s.take(s.len() as int) =~= s);
            lemma_push_budget(s.len(), h0);
        }
        tree
    }

    fn concat<R: FingerTreeRefs<A, Rf>>(refs: &mut R, front: Self, back: Self, Ghost(d): Ghost<nat>) -> (r: Self)
        requires
            front.wf_in(*old(refs), d),
            back.wf_in(*old(refs), d),
            room_for::<A, Rf, R>(*old(refs), concat_room(front.spec_height(), back.spec_height())),
        ensures
            refs_extend::<A, Rf, R>(*final(refs), *old(refs)),
            spent::<A, Rf, R>(*final(refs), *old(refs), concat_room(front.spec_height(), back.spec_height())),
            r.spec_height() <= concat_height(front.spec_height(), back.spec_height()),
            r.wf_in(*final(refs), d),
            r.seq_in(*final(refs), d) == front.seq_in(*old(refs), d) + back.seq_in(*old(refs), d),
    {
        let mid = NodeList::new();
        proof {
            mid.lemma_new_wf(*refs, d);
            assert(front.seq_in(*refs, d) + Seq::<A>::empty() + back.seq_in(*refs, d) =~= front.seq_in(*refs, d) + back.seq_in(*refs, d));
        }
        Self::concat_with_middle(refs, front.0, mid, back.0, Ghost(d))
    }

    fn concat_ref<R: FingerTreeRefs<A, Rf>>(refs: &mut R, front: &Self, back: &Self, Ghost(d): Ghost<nat>) -> (r: Self)
        requires
            front.wf_in(*old(refs), d),
            back.wf_in(*old(refs), d),
            room_for::<A, Rf, R>(*old(refs), concat_room(front.spec_height(), back.spec_height())),
        ensures
            refs_extend::<A, Rf, R>(*final(refs), *old(refs)),
            spent::<A, Rf, R>(*final(refs), *old(refs), concat_room(front.spec_height(), back.spec_height())),
            r.spec_height() <= concat_height(front.spec_height(), back.spec_height()),
            r.wf_in(*final(refs), d),
            r.seq_in(*final(refs), d) == front.seq_in(*old(refs), d) + back.seq_in(*old(refs), d),
    {
        Self::concat(refs, front.duplicate(), back.duplicate(), Ghost(d))
    }

    /// The elements of `front`, then those below the nodes of `mid`, then those of `back`.
    fn concat_with_middle<R: FingerTreeRefs<A, Rf>>(refs: &mut R, front: TreeInner<A, Rf>, mid: NodeList<A, Rf>, back: TreeInner<A, Rf>, Ghost(d): Ghost<nat>) -> (r: Self)
        requires
            Tree(front).wf_in(*old(refs), d),
            mid.wf_in(*old(refs), d),
            Tree(back).wf_in(*old(refs), d),
            room_for::<A, Rf, R>(*old(refs), concat_room(Tree(front).spec_height(), Tree(back).spec_height())),
            mid.items@.len() <= 8,
        ensures
            refs_extend::<A, Rf, R>(*final(refs), *old(refs)),
            spent::<A, Rf, R>(*final(refs), *old(refs), concat_room(Tree(front).spec_height(), Tree(back).spec_height())),
            r.spec_height() <= concat_height(Tree(front).spec_height(), Tree(back).spec_height()),
            r.wf_in(*final(refs), d),
            r.seq_in(*final(refs), d) == Tree(front).seq_in(*old(refs), d) + nodes_seq::<A, Rf, R>(*old(refs), mid.items@, d) + Tree(back).seq_in(*old(refs), d),
        decreases Tree(front).spec_height(),
    {
        let ghost r0 = *refs;
        let ghost fs = Tree(front).seq_in(r0, d);
        let ghost ms = nodes_seq::<A, Rf, R>(r0, mid.items@, d);
        let ghost bs = Tree(back).seq_in(r0, d);
        if let TreeInner::Empty = front {
            assert(Seq::<A>::empty() + ms + bs =~= ms + bs);
            return Self::push_many_front(refs, mid, Tree(back), Ghost(d));
        }
        if let TreeInner::Empty = back {
            assert(fs + ms + Seq::<A>::empty() =~= fs + ms);
            return Self::push_many_back(refs, Tree(front), mid, Ghost(d));
        }
        if let TreeInner::Single { node, .. } = front {
            let t = Self::push_many_front(refs, mid, Tree(back), Ghost(d));
            proof {
                lemma_node_extends::<A, Rf, R>(r0, *refs, node, d);
            }
            let ghost r1 = *refs;
            let r = t.push_front(refs, node, Ghost(d));
            proof {
                lemma_refs_extend_trans::<A, Rf, R>(r0, r1, *refs);
                assert(r.seq_in(*refs, d) =~= fs + ms + bs);
            }
            return r;
        }
        if let TreeInner::Single { node, .. } = back {
            let t = Self::push_many_back(refs, Tree(front), mid, Ghost(d));
            proof {
                lemma_node_extends::<A, Rf, R>(r0, *refs, node, d);
            }
            let ghost r1 = *refs;
            let r = t.push_back(refs, node, Ghost(d));
            proof {
                lemma_refs_extend_trans::<A, Rf, R>(r0, r1, *refs);
                assert(r.seq_in(*refs, d) =~= fs + ms + bs);
            }
            return r;
        }
        Self::concat_deep(refs, Tree(front), mid, Tree(back), Ghost(d))
    }

    /// `concat_with_middle` of two deep trees: the inner digits and the middle nodes are
    /// grouped one level down, between the two deeper trees.
    #[verifier::rlimit(100)]
    fn concat_deep<R: FingerTreeRefs<A, Rf>>(refs: &mut R, front: Self, mid: NodeList<A, Rf>, back: Self, Ghost(d): Ghost<nat>) -> (r: Self)
        requires
            front.wf_in(*old(refs), d),
            front.0 is Deep,
            mid.wf_in(*old(refs), d),
            back.wf_in(*old(refs), d),
            back.0 is Deep,
            room_for::<A, Rf, R>(*old(refs), concat_room(front.spec_height(), back.spec_height())),
            mid.items@.len() <= 8,
        ensures
            refs_extend::<A, Rf, R>(*final(refs), *old(refs)),
            spent::<A, Rf, R>(*final(refs), *old(refs), concat_room(front.spec_height(), back.spec_height())),
            r.spec_height() <= concat_height(front.spec_height(), back.spec_height()),
            r.wf_in(*final(refs), d),
            r.seq_in(*final(refs), d) == front.seq_in(*old(refs), d) + nodes_seq::<A, Rf, R>(*old(refs), mid.items@, d) + back.seq_in(*old(refs), d),
        decreases front.spec_height(), 0nat,
    {
        let ghost r0 = *refs;
        let (left_measure, left_prefix, left_deeper, left_suffix) = match front.0 {
            TreeInner::Deep { measure, prefix, deeper, suffix, .. } => (measure, prefix, deeper, suffix),
            _ => {
                proof {
                    assert(false);
                }
                return front;
            },
        };
        let (right_measure, right_prefix, right_deeper, right_suffix) = match back.0 {
            TreeInner::Deep { measure, prefix, deeper, suffix, .. } => (measure, prefix, deeper, suffix),
            _ => {
                proof {
                    assert(false);
                }
                return back;
            },
        };
        let ghost lp = nodes_seq::<A, Rf, R>(r0, left_prefix.items(), d);
        let ghost ld = get_tree::<A, Rf, R>(r0, left_deeper).seq_in(r0, d + 1);
        let ghost ls = nodes_seq::<A, Rf, R>(r0, left_suffix.items(), d);
        let ghost ms = nodes_seq::<A, Rf, R>(r0, mid.items@, d);
        let ghost rp = nodes_seq::<A, Rf, R>(r0, right_prefix.items(), d);
        let ghost rd = get_tree::<A, Rf, R>(r0, right_deeper).seq_in(r0, d + 1);
        let ghost rs = nodes_seq::<A, Rf, R>(r0, right_suffix.items(), d);
        let NodeList { items: mut mid_items, measure: mid_measure } = mid;
        let measure = left_measure.merge(mid_measure).merge(right_measure);
        proof {
            lemma_measure_concat(front.seq_in(r0, d), ms);
            lemma_measure_concat(front.seq_in(r0, d) + ms, back.seq_in(r0, d));
        }
        let left_inner = refs.clone_tree_ref(&left_deeper);
        let right_inner = refs.clone_tree_ref(&right_deeper);
        let mut items = Vec::new();
        push_digit_items(&mut items, left_suffix);
        items.append(&mut mid_items);
        push_digit_items(&mut items, right_prefix);
        let ghost all = left_suffix.items() + mid.items@ + right_prefix.items();
        proof {
            assert(items@ =~= all);
            assert forall|i: int| 0 <= i < all.len() implies node_ok::<A, Rf, R>(r0, #[trigger] all[i], d) by {
                let a = left_suffix.items().len();
                let b = mid.items@.len();
                if i < a {
                    assert(all[i] == left_suffix.items()[i]);
                } else if i < a + b {
                    assert(all[i] == mid.items@[i - a]);
                } else {
                    assert(all[i] == right_prefix.items()[i - a - b]);
                }
            }
            lemma_nodes_seq_concat::<A, Rf, R>(r0, left_suffix.items(), mid.items@, d);
            lemma_nodes_seq_concat::<A, Rf, R>(r0, left_suffix.items() + mid.items@, right_prefix.items(), d);
        }
        proof {
            left_suffix.lemma_items_len();
            right_prefix.lemma_items_len();
            assert(Tree(left_inner.0) == left_inner);
            assert(Tree(right_inner.0) == right_inner);
        }
        let lifted = Node::lift_list(refs, items, Ghost(d));
        let ghost r1 = *refs;
        proof {
            left_inner.lemma_extends(r0, r1, d + 1);
            right_inner.lemma_extends(r0, r1, d + 1);
        }
        let deeper = Self::concat_with_middle(refs, left_inner.0, lifted, right_inner.0, Ghost(d + 1));
        let ghost r2 = *refs;
        let deeper_ref = refs.alloc_tree(deeper);
        let ghost r3 = *refs;
        let r = Self::deep_with_measure(measure, left_prefix, deeper_ref, right_suffix, Ghost(deeper.spec_height() + 1));
        proof {
            lemma_refs_extend_trans::<A, Rf, R>(r0, r1, r2);
            lemma_refs_extend_trans::<A, Rf, R>(r0, r2, r3);
            lemma_nodes_extends::<A, Rf, R>(r0, r3, left_prefix.items(), d);
            lemma_nodes_extends::<A, Rf, R>(r0, r3, right_suffix.items(), d);
            deeper.lemma_extends(r2, r3, d + 1);
            assert(deeper.seq_in(r3, d + 1) =~= ld + (ls + ms + rp) + rd);
            assert(r.seq_in(r3, d) =~= front.seq_in(r0, d) + ms + back.seq_in(r0, d));
        }
        r
    }
}

impl<A: Measured, Rf: Copy> Tree<A, Rf> {
    /// A well-formed tree caches the measure of its elements, and is empty exactly when it
    /// has no elements.
    pub proof fn lemma_wf<R: RefStore<Node<A, Rf>, Rf> + RefStore<Tree<A, Rf>, Rf>>(self, refs: R, d: nat)
        requires
            self.wf_in(refs, d),
        ensures
            self.spec_tree_measure() == measure_of(self.seq_in(refs, d)),
            self.is_empty_tree() <==> self.seq_in(refs, d).len() == 0,
    {
        match self.0 {
            TreeInner::Empty => {},
            TreeInner::Single { node, .. } => {
                get_node::<A, Rf, R>(refs, node).lemma_nonempty(refs, d);
            },
            TreeInner::Deep { prefix, .. } => {
                let p = prefix.items();
                get_node::<A, Rf, R>(refs, p[0]).lemma_nonempty(refs, d);
                lemma_nodes_seq_concat::<A, Rf, R>(refs, seq![p[0]], p.drop_first(), d);
                lemma_nodes_seq_single::<A, Rf, R>(refs, p[0], d);
                assert(seq![p[0]] + p.drop_first() =~= p);
            },
        }
    }

    /// The first node of the tree level.
    fn front_node<R: FingerTreeRefs<A, Rf>>(&self, Ghost(refs): Ghost<R>, Ghost(d): Ghost<nat>) -> (r: Option<Rf>)
        requires
            self.wf_in(refs, d),
        ensures
            r is None <==> self.seq_in(refs, d).len() == 0,
            r matches Some(n) ==> node_ok::<A, Rf, R>(refs, n, d) && self.seq_in(refs, d).take(node_elems::<A, Rf, R>(refs, n, d).len() as int)
                == node_elems::<A, Rf, R>(refs, n, d),
    {
        proof {
            self.lemma_wf(refs, d);
        }
        match &self.0 {
            TreeInner::Empty => None,
            TreeInner::Single { node, .. } => {
                assert(self.seq_in(refs, d).take(node_elems::<A, Rf, R>(refs, *node, d).len() as int) =~= node_elems::<A, Rf, R>(refs, *node, d));
                Some(*node)
            },
            TreeInner::Deep { prefix, .. } => {
                let n = prefix.first();
                proof {
                    let p = prefix.items();
                    assert(p[0] == n);
                    lemma_nodes_seq_concat::<A, Rf, R>(refs, seq![n], p.drop_first(), d);
                    lemma_nodes_seq_single::<A, Rf, R>(refs, n, d);
                    assert(seq![n] + p.drop_first() =~= p);
                    let e = node_elems::<A, Rf, R>(refs, n, d);
                    assert(self.seq_in(refs, d).take(e.len() as int) =~= e);
                }
                Some(n)
            },
        }
    }

    /// The last node of the tree level.
    fn back_node<R: FingerTreeRefs<A, Rf>>(&self, Ghost(refs): Ghost<R>, Ghost(d): Ghost<nat>) -> (r: Option<Rf>)
        requires
            self.wf_in(refs, d),
        ensures
            r is None <==> self.seq_in(refs, d).len() == 0,
            r matches Some(n) ==> node_ok::<A, Rf, R>(refs, n, d) && self.seq_in(refs, d).skip(self.seq_in(refs, d).len() - node_elems::<A, Rf, R>(refs, n, d).len())
                == node_elems::<A, Rf, R>(refs, n, d),
    {
        proof {
            self.lemma_wf(refs, d);
        }
        match &self.0 {
            TreeInner::Empty => None,
            TreeInner::Single { node, .. } => {
                assert(self.seq_in(refs, d).skip(0) =~= node_elems::<A, Rf, R>(refs, *node, d));
                Some(*node)
            },
            TreeInner::Deep { suffix, .. } => {
                let n = suffix.last();
                proof {
                    let p = suffix.items();
                    assert(p.last() == n);
                    assert(p[p.len() - 1] == n);
                    lemma_nodes_seq_push::<A, Rf, R>(refs, p.drop_last(), n, d);
                    assert(p.drop_last().push(n) =~= p);
                    let e = node_elems::<A, Rf, R>(refs, n, d);
                    let s = self.seq_in(refs, d);
                    assert(s.skip(s.len() - e.len()) =~= e);
                }
                Some(n)
            },
        }
    }
}

/// The nodes of a digit, handed out from the front.
pub struct DigitIter<T>(Option<Digit<T>>);

impl<T: Copy> DigitIter<T> {
    /// The items not handed out yet.
    pub closed spec fn spec_rest(&self) -> Seq<T> {
        opt_items(self.0)
    }

    /// The next item, if any.
    pub fn next(&mut self) -> (r: Option<T>)
        ensures
            match r {
                None => old(self).spec_rest().len() == 0 && final(self).spec_rest().len() == 0,
                Some(v) => old(self).spec_rest() == seq![v] + final(self).spec_rest(),
            },
    {
        match self.0 {
            None => None,
            Some(digit) => {
                let (head, tail) = digit.view_front();
                self.0 = tail;
                Some(head)
            },
        }
    }
}

impl<T: Copy> Digit<T> {
    /// The items from the front, one at a time.
    pub fn into_iter(self) -> (r: DigitIter<T>)
        ensures
            r.spec_rest() == self.items(),
    {
        DigitIter(Some(self))
    }
}

impl<T> Digit<T> {
    /// The digit with each item replaced by `g` of it.
    pub open spec fn spec_map<S>(self, g: spec_fn(T) -> S) -> Digit<S> {
        match self {
            Digit::One(a) => Digit::One(g(a)),
            Digit::Two(a, b) => Digit::Two(g(a), g(b)),
            Digit::Three(a, b, c) => Digit::Three(g(a), g(b), g(c)),
            Digit::Four(a, b, c, e) => Digit::Four(g(a), g(b), g(c), g(e)),
        }
    }

    /// The digit with each item replaced by `f` of it.
    fn map<S, F: Fn(&T) -> S>(&self, f: &F, Ghost(g): Ghost<spec_fn(T) -> S>) -> (r: Digit<S>)
        requires
            forall|x: T| #[trigger] f.requires((&x,)),
            forall|x: T, y: S| #[trigger] f.ensures((&x,), y) ==> y == g(x),
        ensures
            r == self.spec_map(g),
    {
        match self {
            Digit::One(a) => Digit::One(f(a)),
            Digit::Two(a, b) => Digit::Two(f(a), f(b)),
            Digit::Three(a, b, c) => Digit::Three(f(a), f(b), f(c)),
            Digit::Four(a, b, c, e) => Digit::Four(f(a), f(b), f(c), f(e)),
        }
    }
}

/// Every node and tree level of `r1` is found in `r2` behind `g` of its reference, with its
/// own references replaced by `g` of them.
pub open spec fn refs_map_from<A: Measured, Rf, Sf, R1: RefStore<Node<A, Rf>, Rf> + RefStore<Tree<A, Rf>, Rf>, R2: RefStore<Node<A, Sf>, Sf> + RefStore<Tree<A, Sf>, Sf>>(
    r2: R2,
    r1: R1,
    g: spec_fn(Rf) -> Sf,
) -> bool {
    &&& forall|r: Rf| #[trigger] has_node::<A, Rf, R1>(r1, r) ==> has_node::<A, Sf, R2>(r2, g(r)) && get_node::<A, Sf, R2>(r2, g(r)) == get_node::<A, Rf, R1>(r1, r).spec_map_refs(g)
    &&& forall|r: Rf| #[trigger] has_tree::<A, Rf, R1>(r1, r) ==> has_tree::<A, Sf, R2>(r2, g(r)) && get_tree::<A, Sf, R2>(r2, g(r)) == get_tree::<A, Rf, R1>(r1, r).spec_map_refs(g)
}

impl<A: Measured, Rf> Node<A, Rf> {
    /// The node with each child reference replaced by `g` of it.
    pub closed spec fn spec_map_refs<Sf>(self, g: spec_fn(Rf) -> Sf) -> Node<A, Sf> {
        Node {
            measure: self.measure,
            inner: match self.inner {
                NodeInner::Leaf(a) => NodeInner::Leaf(a),
                NodeInner::Branch2 { left, right } => NodeInner::Branch2 { left: g(left), right: g(right) },
                NodeInner::Branch3 { left, middle, right } => NodeInner::Branch3 { left: g(left), middle: g(middle), right: g(right) },
            },
        }
    }

    /// A node read through a mapped store means what it means in the store it was mapped from.
    pub proof fn lemma_map_refs<Sf, R1: RefStore<Node<A, Rf>, Rf> + RefStore<Tree<A, Rf>, Rf>, R2: RefStore<Node<A, Sf>, Sf> + RefStore<Tree<A, Sf>, Sf>>(
        self,
        r1: R1,
        r2: R2,
        g: spec_fn(Rf) -> Sf,
        d: nat,
    )
        requires
            self.wf_in(r1, d),
            refs_map_from::<A, Rf, Sf, R1, R2>(r2, r1, g),
        ensures
            self.spec_map_refs(g).wf_in(r2, d),
            self.spec_map_refs(g).seq_in(r2, d) == self.seq_in(r1, d),
        decreases d,
    {
        match self.inner {
            NodeInner::Leaf(_) => {},
            NodeInner::Branch2 { left, right } => {
                get_node::<A, Rf, R1>(r1, left).lemma_map_refs(r1, r2, g, (d - 1) as nat);
                get_node::<A, Rf, R1>(r1, right).lemma_map_refs(r1, r2, g, (d - 1) as nat);
            },
            NodeInner::Branch3 { left, middle, right } => {
                get_node::<A, Rf, R1>(r1, left).lemma_map_refs(r1, r2, g, (d - 1) as nat);
                get_node::<A, Rf, R1>(r1, middle).lemma_map_refs(r1, r2, g, (d - 1) as nat);
                get_node::<A, Rf, R1>(r1, right).lemma_map_refs(r1, r2, g, (d - 1) as nat);
            },
        }
    }
}

impl<A: Measured, Rf: Copy> Node<A, Rf> {
    fn map_refs<Sf, F: Fn(&Rf) -> Sf>(&self, f: &F, Ghost(g): Ghost<spec_fn(Rf) -> Sf>) -> (r: Node<A, Sf>)
        requires
            forall|x: Rf| #[trigger] f.requires((&x,)),
            forall|x: Rf, y: Sf| #[trigger] f.ensures((&x,), y) ==> y == g(x),
        ensures
            r == self.spec_map_refs(g),
    {
        let inner = match &self.inner {
            NodeInner::Leaf(a) => NodeInner::Leaf(a.duplicate()),
            NodeInner::Branch2 { left, right } => NodeInner::Branch2 { left: f(left), right: f(right) },
            NodeInner::Branch3 { left, middle, right } => NodeInner::Branch3 { left: f(left), middle: f(middle), right: f(right) },
        };
        Node { measure: self.measure.duplicate(), inner }
    }
}

/// The nodes of a mapped digit, read through a mapped store, mean what the unmapped ones do.
proof fn lemma_digit_map<A: Measured, Rf, Sf, R1: RefStore<Node<A, Rf>, Rf> + RefStore<Tree<A, Rf>, Rf>, R2: RefStore<Node<A, Sf>, Sf> + RefStore<Tree<A, Sf>, Sf>>(
    digit: Digit<Rf>,
    r1: R1,
    r2: R2,
    g: spec_fn(Rf) -> Sf,
    d: nat,
)
    requires
        nodes_wf::<A, Rf, R1>(r1, digit.items(), d),
        refs_map_from::<A, Rf, Sf, R1, R2>(r2, r1, g),
    ensures
        nodes_wf::<A, Sf, R2>(r2, digit.spec_map(g).items(), d),
        nodes_seq::<A, Sf, R2>(r2, digit.spec_map(g).items(), d) == nodes_seq::<A, Rf, R1>(r1, digit.items(), d),
{
    let items = digit.items();
    let mapped = digit.spec_map(g).items();
    assert(mapped.len() == items.len());
    assert forall|i: int| 0 <= i < mapped.len() implies #[trigger] mapped[i] == g(items[i]) by {}
    assert forall|i: int| 0 <= i < items.len() implies node_ok::<A, Sf, R2>(r2, g(items[i]), d)
        && node_elems::<A, Sf, R2>(r2, g(items[i]), d) == node_elems::<A, Rf, R1>(r1, items[i], d) by {
        assert(node_ok::<A, Rf, R1>(r1, items[i], d));
        get_node::<A, Rf, R1>(r1, items[i]).lemma_map_refs(r1, r2, g, d);
    }
    assert forall|i: int| 0 <= i < mapped.len() implies node_ok::<A, Sf, R2>(r2, #[trigger] mapped[i], d) by {
        assert(mapped[i] == g(items[i]));
    }
    lemma_digit_seq::<A, Rf, R1>(r1, digit, d);
    lemma_digit_seq::<A, Sf, R2>(r2, digit.spec_map(g), d);
    match digit {
        Digit::One(a) => {
            assert(items[0] == a);
        },
        Digit::Two(a, b) => {
            assert(items[0] == a && items[1] == b);
        },
        Digit::Three(a, b, c) => {
            assert(items[0] == a && items[1] == b && items[2] == c);
        },
        Digit::Four(a, b, c, e) => {
            assert(items[0] == a && items[1] == b && items[2] == c && items[3] == e);
        },
    }
}

impl<A: Measured, Rf> Tree<A, Rf> {
    /// The tree level with each reference replaced by `g` of it.
    pub closed spec fn spec_map_refs<Sf>(self, g: spec_fn(Rf) -> Sf) -> Tree<A, Sf> {
        Tree(
            match self.0 {
                TreeInner::Empty => TreeInner::Empty,
                TreeInner::Single { measure, node } => TreeInner::Single { measure, node: g(node) },
                TreeInner::Deep { measure, prefix, deeper, suffix, height } => TreeInner::Deep {
                    measure,
                    prefix: prefix.spec_map(g),
                    deeper: g(deeper),
                    suffix: suffix.spec_map(g),
                    height,
                },
            },
        )
    }

    /// A tree level read through a mapped store means what it means in the store it was mapped from.
    pub proof fn lemma_map_refs<Sf, R1: RefStore<Node<A, Rf>, Rf> + RefStore<Tree<A, Rf>, Rf>, R2: RefStore<Node<A, Sf>, Sf> + RefStore<Tree<A, Sf>, Sf>>(
        self,
        r1: R1,
        r2: R2,
        g: spec_fn(Rf) -> Sf,
        d: nat,
    )
        requires
            self.wf_in(r1, d),
            refs_map_from::<A, Rf, Sf, R1, R2>(r2, r1, g),
        ensures
            self.spec_map_refs(g).wf_in(r2, d),
            self.spec_map_refs(g).seq_in(r2, d) == self.seq_in(r1, d),
        decreases self.spec_height(),
    {
        match self.0 {
            TreeInner::Empty => {},
            TreeInner::Single { node, .. } => {
                get_node::<A, Rf, R1>(r1, node).lemma_map_refs(r1, r2, g, d);
            },
            TreeInner::Deep { prefix, deeper, suffix, .. } => {
                lemma_digit_map::<A, Rf, Sf, R1, R2>(prefix, r1, r2, g, d);
                lemma_digit_map::<A, Rf, Sf, R1, R2>(suffix, r1, r2, g, d);
                get_tree::<A, Rf, R1>(r1, deeper).lemma_map_refs(r1, r2, g, d + 1);
            },
        }
    }
}

impl<A: Measured, Rf: Copy> Tree<A, Rf> {
    fn map_refs<Sf, F: Fn(&Rf) -> Sf>(&self, f: &F, Ghost(g): Ghost<spec_fn(Rf) -> Sf>) -> (r: Tree<A, Sf>)
        requires
            forall|x: Rf| #[trigger] f.requires((&x,)),
            forall|x: Rf, y: Sf| #[trigger] f.ensures((&x,), y) ==> y == g(x),
        ensures
            r == self.spec_map_refs(g),
    {
        Tree(
            match &self.0 {
                TreeInner::Empty => TreeInner::Empty,
                TreeInner::Single { measure, node } => TreeInner::Single { measure: measure.duplicate(), node: f(node) },
                TreeInner::Deep { measure, prefix, deeper, suffix, height } => TreeInner::Deep {
                    measure: measure.duplicate(),
                    prefix: prefix.map(f, Ghost(g)),
                    deeper: f(deeper),
                    suffix: suffix.map(f, Ghost(g)),
                    height: *height,
                },
            },
        )
    }
}

} // verus!
