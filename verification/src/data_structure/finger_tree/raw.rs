use super::{
    is_measure_pred, pred_fails, lemma_refs_extend_trans, measure_of, node_elems, node_ok, pred_holds,
    refs_extend, refs_map_from, concat_height, concat_room, room_for, spent, split_height, split_ok, split_room, build_room, lemma_build_step, FingerTreeRefs, Measured, Node, Tree,
};
use crate::data_structure::ref_store::{lemma_store_extends_refl, Duplicate};
use crate::traits::monoid::Monoid;
use crate::traits::semigroup::Semigroup;
use vstd::prelude::*;

verus! {

/// A finger tree of elements of type `A`, whose nodes and levels live in a store with
/// references of type `Rf`.
pub struct RawFingerTree<A: Measured, Rf> {
    root: Tree<A, Rf>,
}

impl<A: Measured, Rf: Copy> RawFingerTree<A, Rf> {
    /// The tree is well formed in `refs`.
    pub closed spec fn wf_in<R: FingerTreeRefs<A, Rf>>(&self, refs: R) -> bool {
        self.root.wf_in(refs, 0)
    }

    /// The elements of the tree, in order.
    pub closed spec fn seq_in<R: FingerTreeRefs<A, Rf>>(&self, refs: R) -> Seq<A> {
        self.root.seq_in(refs, 0)
    }

    /// The tree has no elements.
    pub closed spec fn spec_is_empty(&self) -> bool {
        self.root.is_empty_tree()
    }

    /// The measure the tree caches.
    pub closed spec fn spec_measure(&self) -> A::Measure {
        self.root.spec_tree_measure()
    }

    /// How many levels the tree has below its top one, at most.
    pub closed spec fn spec_height(&self) -> nat {
        self.root.spec_height()
    }

    /// A well-formed tree caches the measure of its elements and is empty exactly when it
    /// has none.
    pub proof fn lemma_wf<R: FingerTreeRefs<A, Rf>>(&self, refs: R)
        requires
            self.wf_in(refs),
        ensures
            self.spec_measure() == measure_of(self.seq_in(refs)),
            self.spec_is_empty() <==> self.seq_in(refs).len() == 0,
    {
        self.root.lemma_wf(refs, 0);
    }

    /// An empty tree is well formed in every store.
    pub proof fn lemma_empty<R: FingerTreeRefs<A, Rf>>(&self, refs: R)
        requires
            self.spec_is_empty(),
        ensures
            self.wf_in(refs),
            self.seq_in(refs) == Seq::<A>::empty(),
    {
        self.root.lemma_empty(refs, 0);
    }

    /// A tree stays well formed, with the same elements, when its store grows.
    pub proof fn lemma_extends<R: FingerTreeRefs<A, Rf>>(&self, a: R, b: R)
        requires
            self.wf_in(a),
            refs_extend::<A, Rf, R>(b, a),
        ensures
            self.wf_in(b),
            self.seq_in(b) == self.seq_in(a),
    {
        self.root.lemma_extends(a, b, 0);
    }

    pub fn new() -> (r: Self)
        ensures
            r.spec_is_empty(),
            r.spec_height() == 0,
    {
        RawFingerTree { root: Tree::empty() }
    }

    /// A tree of the elements of `values`, in order.
    pub fn from_iter_in<R: FingerTreeRefs<A, Rf>>(refs: &mut R, values: Vec<A>) -> (r: Self)
        requires
            room_for::<A, Rf, R>(*old(refs), build_room(values@.len())),
        ensures
            refs_extend::<A, Rf, R>(*final(refs), *old(refs)),
            spent::<A, Rf, R>(*final(refs), *old(refs), build_room(values@.len())),
            r.wf_in(*final(refs)),
            r.seq_in(*final(refs)) == values@,
    {
        let ghost r0 = *refs;
        let ghost vs = values@;
        let mut tree = Self::new();
        let mut values = values;
        let mut rest: Vec<A> = Vec::new();
        proof {
            lemma_store_extends_refl::<Node<A, Rf>, Rf, R>(r0);
            lemma_store_extends_refl::<super::Tree<A, Rf>, Rf, R>(r0);
            tree.lemma_empty(r0);
        }
        // Take the values from the back, so that each push works on the front of `rest`.
        let n = values.len();
        let mut i: usize = 0;
        while i < n
            invariant
                n == vs.len(),
                i <= n,
                values@ == vs.take(n - i),
                refs_extend::<A, Rf, R>(*refs, r0),
                room_for::<A, Rf, R>(r0, build_room(n as nat)),
                spent::<A, Rf, R>(*refs, r0, build_room(i as nat)),
                i == 0 ==> tree.spec_is_empty() && tree.spec_height() == 0,
                i > 0 ==> tree.spec_height() < i,
                tree.wf_in(*refs),
                tree.seq_in(*refs) == vs.skip(n - i),
            decreases n - i,
        {
            let ghost rc = *refs;
            let v = values.pop().unwrap();
            proof {
                assert(v == vs[n - i - 1]);
                lemma_build_step(i as nat, n as nat);
            }
            tree.push_front_mut(refs, v);
            i = i + 1;
            proof {
                lemma_refs_extend_trans::<A, Rf, R>(r0, rc, *refs);
                assert(values@ =~= vs.take(n - i));
                assert(seq![v] + vs.skip(n - i + 1) =~= vs.skip(n - i));
            }
        }
        proof {
            assert(vs.skip(0) =~= vs);
        }
        tree
    }

    pub fn is_empty(&self) -> (r: bool)
        ensures
            r == self.spec_is_empty(),
    {
        self.root.is_empty()
    }

    pub fn measure(&self) -> (r: A::Measure)
        ensures
            r == self.spec_measure(),
    {
        self.root.measure()
    }

    /// The first element.
    pub fn front<R: FingerTreeRefs<A, Rf>>(&self, refs: &R) -> (r: Option<A>)
        requires
            self.wf_in(*refs),
        ensures
            r == (if self.seq_in(*refs).len() == 0 { None } else { Some(self.seq_in(*refs)[0]) }),
    {
        match self.root.front_node::<R>(Ghost(*refs), Ghost(0)) {
            None => None,
            Some(node) => {
                let v = Node::leaf_value(refs, &node);
                proof {
                    assert(seq![v][0] == v);
                    assert(self.seq_in(*refs).take(1)[0] == self.seq_in(*refs)[0]);
                }
                Some(v)
            },
        }
    }

    /// The last element.
    pub fn back<R: FingerTreeRefs<A, Rf>>(&self, refs: &R) -> (r: Option<A>)
        requires
            self.wf_in(*refs),
        ensures
            r == (if self.seq_in(*refs).len() == 0 { None } else { Some(self.seq_in(*refs).last()) }),
    {
        match self.root.back_node::<R>(Ghost(*refs), Ghost(0)) {
            None => None,
            Some(node) => {
                let v = Node::leaf_value(refs, &node);
                proof {
                    let s = self.seq_in(*refs);
                    assert(seq![v][0] == v);
                    assert(s.skip(s.len() - 1)[0] == s.last());
                }
                Some(v)
            },
        }
    }

    /// Adds `value` before the first element.
    pub fn push_front_mut<R: FingerTreeRefs<A, Rf>>(&mut self, refs: &mut R, value: A)
        requires
            old(self).wf_in(*old(refs)),
            room_for::<A, Rf, R>(*old(refs), 2 * old(self).spec_height() + 2),
        ensures
            refs_extend::<A, Rf, R>(*final(refs), *old(refs)),
            spent::<A, Rf, R>(*final(refs), *old(refs), 2 * old(self).spec_height() + 2),
            final(self).spec_height() <= old(self).spec_height() + 1,
            final(self).wf_in(*final(refs)),
            final(self).seq_in(*final(refs)) == seq![value] + old(self).seq_in(*old(refs)),
            old(self).spec_is_empty() ==> final(self).spec_height() == 0,
    {
        let ghost r0 = *refs;
        let leaf = Node::leaf(value);
        let node = refs.alloc_node(leaf);
        let ghost r1 = *refs;
        proof {
            leaf.lemma_leaf(value, r1);
            self.root.lemma_extends(r0, r1, 0);
        }
        self.root.push_front_mut(refs, node, Ghost(0));
        proof {
            lemma_refs_extend_trans::<A, Rf, R>(r0, r1, *refs);
        }
    }

    /// Adds `value` after the last element.
    pub fn push_back_mut<R: FingerTreeRefs<A, Rf>>(&mut self, refs: &mut R, value: A)
        requires
            old(self).wf_in(*old(refs)),
            room_for::<A, Rf, R>(*old(refs), 2 * old(self).spec_height() + 2),
        ensures
            refs_extend::<A, Rf, R>(*final(refs), *old(refs)),
            spent::<A, Rf, R>(*final(refs), *old(refs), 2 * old(self).spec_height() + 2),
            final(self).spec_height() <= old(self).spec_height() + 1,
            final(self).wf_in(*final(refs)),
            final(self).seq_in(*final(refs)) == old(self).seq_in(*old(refs)).push(value),
            old(self).spec_is_empty() ==> final(self).spec_height() == 0,
    {
        let ghost r0 = *refs;
        let leaf = Node::leaf(value);
        let node = refs.alloc_node(leaf);
        let ghost r1 = *refs;
        proof {
            leaf.lemma_leaf(value, r1);
            self.root.lemma_extends(r0, r1, 0);
        }
        self.root.push_back_mut(refs, node, Ghost(0));
        proof {
            lemma_refs_extend_trans::<A, Rf, R>(r0, r1, *refs);
            assert(old(self).seq_in(r0) + seq![value] =~= old(self).seq_in(r0).push(value));
        }
    }

    /// The elements of `self`, then those of `other`; both trees stay as they are.
    pub fn concat<R: FingerTreeRefs<A, Rf>>(&self, refs: &mut R, other: &Self) -> (r: Self)
        requires
            self.wf_in(*old(refs)),
            other.wf_in(*old(refs)),
            room_for::<A, Rf, R>(*old(refs), concat_room(self.spec_height(), other.spec_height())),
        ensures
            refs_extend::<A, Rf, R>(*final(refs), *old(refs)),
            spent::<A, Rf, R>(*final(refs), *old(refs), concat_room(self.spec_height(), other.spec_height())),
            r.spec_height() <= concat_height(self.spec_height(), other.spec_height()),
            r.wf_in(*final(refs)),
            r.seq_in(*final(refs)) == self.seq_in(*old(refs)) + other.seq_in(*old(refs)),
            self.wf_in(*final(refs)),
            self.seq_in(*final(refs)) == self.seq_in(*old(refs)),
            other.wf_in(*final(refs)),
            other.seq_in(*final(refs)) == other.seq_in(*old(refs)),
    {
        let ghost r0 = *refs;
        let r = RawFingerTree { root: Tree::concat_ref(refs, &self.root, &other.root, Ghost(0)) };
        proof {
            self.lemma_extends(r0, *refs);
            other.lemma_extends(r0, *refs);
        }
        r
    }

    /// Appends the elements of `other`.
    pub fn concat_mut<R: FingerTreeRefs<A, Rf>>(&mut self, refs: &mut R, other: Self)
        requires
            old(self).wf_in(*old(refs)),
            other.wf_in(*old(refs)),
            room_for::<A, Rf, R>(*old(refs), concat_room(old(self).spec_height(), other.spec_height())),
        ensures
            refs_extend::<A, Rf, R>(*final(refs), *old(refs)),
            spent::<A, Rf, R>(*final(refs), *old(refs), concat_room(old(self).spec_height(), other.spec_height())),
            final(self).spec_height() <= concat_height(old(self).spec_height(), other.spec_height()),
            final(self).wf_in(*final(refs)),
            final(self).seq_in(*final(refs)) == old(self).seq_in(*old(refs)) + other.seq_in(*old(refs)),
    {
        let left = self.take_root();
        self.root = Tree::concat(refs, left, other.root, Ghost(0));
    }

    /// Removes and returns the first element.
    pub fn pop_front<R: FingerTreeRefs<A, Rf>>(&mut self, refs: &mut R) -> (r: Option<A>)
        requires
            old(self).wf_in(*old(refs)),
            room_for::<A, Rf, R>(*old(refs), old(self).spec_height() + 16),
        ensures
            refs_extend::<A, Rf, R>(*final(refs), *old(refs)),
            spent::<A, Rf, R>(*final(refs), *old(refs), old(self).spec_height() + 16),
            final(self).spec_height() <= old(self).spec_height() + 4,
            final(self).wf_in(*final(refs)),
            match r {
                None => old(self).seq_in(*old(refs)).len() == 0 && final(self).seq_in(*final(refs)).len() == 0,
                Some(v) => old(self).seq_in(*old(refs)) == seq![v] + final(self).seq_in(*final(refs)),
            },
    {
        let old_root = self.take_root();
        match Tree::view_front_with(refs, old_root.0, Ghost(0)) {
            None => {
                proof {
                    self.lemma_empty(*refs);
                }
                None
            },
            Some((head, rest)) => {
                self.root = rest;
                let v = Node::leaf_value(refs, &head);
                Some(v)
            },
        }
    }

    /// Removes and returns the last element.
    pub fn pop_back<R: FingerTreeRefs<A, Rf>>(&mut self, refs: &mut R) -> (r: Option<A>)
        requires
            old(self).wf_in(*old(refs)),
            room_for::<A, Rf, R>(*old(refs), old(self).spec_height() + 16),
        ensures
            refs_extend::<A, Rf, R>(*final(refs), *old(refs)),
            spent::<A, Rf, R>(*final(refs), *old(refs), old(self).spec_height() + 16),
            final(self).spec_height() <= old(self).spec_height() + 4,
            final(self).wf_in(*final(refs)),
            match r {
                None => old(self).seq_in(*old(refs)).len() == 0 && final(self).seq_in(*final(refs)).len() == 0,
                Some(v) => old(self).seq_in(*old(refs)) == final(self).seq_in(*final(refs)).push(v),
            },
    {
        let old_root = self.take_root();
        match Tree::view_back_with(refs, old_root.0, Ghost(0)) {
            None => {
                proof {
                    self.lemma_empty(*refs);
                }
                None
            },
            Some((rest, last)) => {
                self.root = rest;
                let v = Node::leaf_value(refs, &last);
                proof {
                    assert(rest.seq_in(*refs, 0) + seq![v] =~= rest.seq_in(*refs, 0).push(v));
                }
                Some(v)
            },
        }
    }

    /// Splits the tree at the first element at which `pred` holds on the measure of the
    /// elements up to and including it; the tree itself stays as it is.
    pub fn split<R: FingerTreeRefs<A, Rf>, F: Fn(&A::Measure) -> bool>(&self, refs: &mut R, pred: F) -> (r: Option<(Self, A, Self)>)
        requires
            self.wf_in(*old(refs)),
            room_for::<A, Rf, R>(*old(refs), split_room(self.spec_height())),
            is_measure_pred(pred),
        ensures
            refs_extend::<A, Rf, R>(*final(refs), *old(refs)),
            spent::<A, Rf, R>(*final(refs), *old(refs), split_room(self.spec_height())),
            r matches Some((f, _, b)) ==> f.spec_height() <= split_height(self.spec_height()) && b.spec_height() <= split_height(self.spec_height()),
            raw_split_ok(*final(refs), self.seq_in(*old(refs)), pred, r),
            self.wf_in(*final(refs)),
            self.seq_in(*final(refs)) == self.seq_in(*old(refs)),
    {
        let ghost r0 = *refs;
        let r = self.duplicate().split_with(refs, &pred);
        proof {
            self.lemma_extends(r0, *refs);
        }
        r
    }

    /// Like `split`, consuming the tree.
    pub fn into_split<R: FingerTreeRefs<A, Rf>, F: Fn(&A::Measure) -> bool>(self, refs: &mut R, pred: F) -> (r: Option<(Self, A, Self)>)
        requires
            self.wf_in(*old(refs)),
            room_for::<A, Rf, R>(*old(refs), split_room(self.spec_height())),
            is_measure_pred(pred),
        ensures
            refs_extend::<A, Rf, R>(*final(refs), *old(refs)),
            spent::<A, Rf, R>(*final(refs), *old(refs), split_room(self.spec_height())),
            r matches Some((f, _, b)) ==> f.spec_height() <= split_height(self.spec_height()) && b.spec_height() <= split_height(self.spec_height()),
            raw_split_ok(*final(refs), self.seq_in(*old(refs)), pred, r),
    {
        self.split_with(refs, &pred)
    }

    /// `into_split` with the predicate passed by reference.
    pub(crate) fn split_with<R: FingerTreeRefs<A, Rf>, F: Fn(&A::Measure) -> bool>(self, refs: &mut R, pred: &F) -> (r: Option<(Self, A, Self)>)
        requires
            self.wf_in(*old(refs)),
            room_for::<A, Rf, R>(*old(refs), split_room(self.spec_height())),
            is_measure_pred(*pred),
        ensures
            refs_extend::<A, Rf, R>(*final(refs), *old(refs)),
            spent::<A, Rf, R>(*final(refs), *old(refs), split_room(self.spec_height())),
            r matches Some((f, _, b)) ==> f.spec_height() <= split_height(self.spec_height()) && b.spec_height() <= split_height(self.spec_height()),
            raw_split_ok(*final(refs), self.seq_in(*old(refs)), *pred, r),
    {
        let ghost r0 = *refs;
        let ghost s = self.seq_in(r0);
        let result = Tree::split_offset_with(refs, self.root.0, A::Measure::empty(), pred, Ghost(0));
        proof {
            A::Measure::lemma_empty_identity(measure_of(s));
        }
        match result {
            None => None,
            Some((front, mid, back)) => {
                let v = Node::leaf_value(refs, &mid);
                let ghost fs = front.seq_in(*refs, 0);
                proof {
                    A::Measure::lemma_empty_identity(measure_of(fs));
                    A::Measure::lemma_empty_identity(measure_of(fs + seq![v]));
                    assert(fs + seq![v] =~= fs.push(v));
                }
                Some((RawFingerTree { root: front }, v, RawFingerTree { root: back }))
            },
        }
    }

    fn take_root(&mut self) -> (r: Tree<A, Rf>)
        ensures
            r == old(self).root,
            final(self).spec_is_empty(),
            final(self).spec_height() == 0,
    {
        let mut root = Tree::empty();
        std::mem::swap(&mut root, &mut self.root);
        root
    }
}

impl<A: Measured, Rf: Copy> Duplicate for RawFingerTree<A, Rf> {
    fn duplicate(&self) -> (r: Self) {
        RawFingerTree { root: self.root.duplicate() }
    }
}

/// What splitting the elements `s` of a tree gives: the first element at which `pred`
/// holds on the measure of the elements up to and including it, with the trees of the
/// elements before and after it.
pub open spec fn raw_split_ok<A: Measured, Rf: Copy, R: FingerTreeRefs<A, Rf>, F: Fn(&A::Measure) -> bool>(
    refs: R,
    s: Seq<A>,
    pred: F,
    r: Option<(RawFingerTree<A, Rf>, A, RawFingerTree<A, Rf>)>,
) -> bool {
    match r {
        None => s.len() == 0 || pred_fails(pred, measure_of(s)),
        Some((front, x, back)) => {
            &&& front.wf_in(refs)
            &&& back.wf_in(refs)
            &&& s == front.seq_in(refs).push(x) + back.seq_in(refs)
            &&& pred_holds(pred, measure_of(front.seq_in(refs).push(x)))
            &&& front.seq_in(refs).len() > 0 ==> pred_fails(pred, measure_of(front.seq_in(refs)))
        },
    }
}

impl<A: Measured, Rf: Copy> RawFingerTree<A, Rf> {
    /// The tree with each reference replaced by `g` of it.
    pub closed spec fn spec_map_refs<Sf>(&self, g: spec_fn(Rf) -> Sf) -> RawFingerTree<A, Sf> {
        RawFingerTree { root: self.root.spec_map_refs(g) }
    }

    /// A tree read through a mapped store means what it means in the store it was mapped from.
    pub proof fn lemma_map_refs<Sf: Copy, R1: FingerTreeRefs<A, Rf>, R2: FingerTreeRefs<A, Sf>>(&self, r1: R1, r2: R2, g: spec_fn(Rf) -> Sf)
        requires
            self.wf_in(r1),
            refs_map_from::<A, Rf, Sf, R1, R2>(r2, r1, g),
        ensures
            self.spec_map_refs(g).wf_in(r2),
            self.spec_map_refs(g).seq_in(r2) == self.seq_in(r1),
    {
        self.root.lemma_map_refs(r1, r2, g, 0);
    }

    pub(crate) fn map_refs<Sf, F: Fn(&Rf) -> Sf>(&self, f: &F, Ghost(g): Ghost<spec_fn(Rf) -> Sf>) -> (r: RawFingerTree<A, Sf>)
        requires
            forall|x: Rf| #[trigger] f.requires((&x,)),
            forall|x: Rf, y: Sf| #[trigger] f.ensures((&x,), y) ==> y == g(x),
        ensures
            r == self.spec_map_refs(g),
    {
        RawFingerTree { root: self.root.map_refs(f, Ghost(g)) }
    }
}

} // verus!
