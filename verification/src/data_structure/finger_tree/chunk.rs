use super::{call_pred, refs_map_from, Node, Tree, is_measure_pred, pred_fails, concat_height, concat_room, refs_extend, room_for, spent, split_height, split_room, build_room, lemma_build_step, lemma_build_monotone, lemma_refs_extend_trans, FingerTreeRefs, RawFingerTree, lemma_measure_concat, lemma_measure_empty, lemma_measure_single, lemma_offset_concat, measure_of, pred_holds, Measured};
use crate::data_structure::ref_store::{lemma_store_extends_refl, Duplicate};
use crate::data_structure::seg_tree::tree::array_from_fn;
use crate::traits::monoid::Monoid;
use crate::traits::semigroup::Semigroup;
use vstd::prelude::*;

verus! {

/// Up to `N` elements kept together in one finger tree element, with their merged measure.
pub struct Chunk<A: Measured, const N: usize> {
    measure: A::Measure,
    len: usize,
    items: [Option<A>; N],
}

/// The elements of an optional chunk; none for `None`.
pub open spec fn opt_view<A: Measured, const N: usize>(c: Option<Chunk<A, N>>) -> Seq<A> {
    match c {
        Some(c) => c.view(),
        None => Seq::empty(),
    }
}

impl<A: Measured, const N: usize> Chunk<A, N> {
    /// The elements, in order.
    pub closed spec fn view(&self) -> Seq<A> {
        Seq::new(self.len as nat, |i: int| self.items@[i]->0)
    }

    /// The first `len` slots hold the elements, the others nothing, and the cached measure
    /// is the measure of the elements.
    pub closed spec fn wf(&self) -> bool {
        &&& self.len <= N
        &&& forall|i: int| 0 <= i < N ==> (#[trigger] self.items@[i] is Some <==> i < self.len)
        &&& self.measure == measure_of(self.view())
    }

    pub proof fn lemma_wf(&self)
        requires
            self.wf(),
        ensures
            self.view().len() <= N,
            self.spec_measure() == measure_of(self.view()),
    {
    }

    /// An empty chunk.
    fn empty() -> (r: Self)
        requires
            N > 0,
        ensures
            r.wf(),
            r.view() == Seq::<A>::empty(),
    {
        let items = array_from_fn(|_i: usize| -> (o: Option<A>) ensures o is None, { None });
        let r = Chunk { measure: A::Measure::empty(), len: 0, items };
        proof {
            lemma_measure_empty::<A>();
            assert(r.view() =~= Seq::<A>::empty());
        }
        r
    }

    fn is_empty(&self) -> (r: bool)
        requires
            self.wf(),
        ensures
            r == (self.view().len() == 0),
    {
        self.len == 0
    }

    fn is_full(&self) -> (r: bool)
        requires
            self.wf(),
        ensures
            r == (self.view().len() == N),
    {
        self.len == N
    }

    fn item(&self, i: usize) -> (r: &A)
        requires
            self.wf(),
            i < self.view().len(),
        ensures
            *r == self.view()[i as int],
        decreases 0nat,
    {
        match &self.items[i] {
            Some(v) => v,
            None => {
                proof {
                    assert(self.items@[i as int] is Some);
                }
                self.item(i)
            },
        }
    }

    /// Adds `value` after the last element.
    fn push_back(&mut self, value: A)
        requires
            old(self).wf(),
            old(self).view().len() < N,
        ensures
            final(self).wf(),
            final(self).view() == old(self).view().push(value),
    {
        let ghost v0 = self.view();
        let m = value.measure();
        let mut measure = A::Measure::empty();
        std::mem::swap(&mut measure, &mut self.measure);
        self.measure = measure.merge(m);
        let len = self.len;
        self.items[len] = Some(value);
        self.len = len + 1;
        proof {
            assert(self.view() =~= v0.push(value));
            lemma_measure_concat(v0, seq![value]);
            lemma_measure_single(value);
            assert(v0 + seq![value] =~= v0.push(value));
            assert forall|i: int| 0 <= i < N implies (#[trigger] self.items@[i] is Some <==> i < self.len) by {
                if i != len {
                    assert(self.items@[i] == old(self).items@[i]);
                }
            }
        }
    }

    /// Adds `value` before the first element.
    fn push_front(&mut self, value: A)
        requires
            old(self).wf(),
            old(self).view().len() < N,
        ensures
            final(self).wf(),
            final(self).view() == seq![value] + old(self).view(),
    {
        let ghost v0 = self.view();
        let ghost old_items = self.items@;
        let len = self.len;
        let mut j = len;
        while j > 0
            invariant
                len == old(self).len,
                len < N,
                j <= len,
                self.len == len,
                self.measure == old(self).measure,
                forall|k: int| 0 <= k < j ==> self.items@[k] == old_items[k],
                self.items@[j as int] is None,
                forall|k: int| j < k <= len ==> self.items@[k] == old_items[k - 1],
                forall|k: int| len < k < N ==> self.items@[k] == old_items[k],
            decreases j,
        {
            let moved = self.items[j - 1].take();
            self.items[j] = moved;
            j = j - 1;
        }
        let m = value.measure();
        self.items[0] = Some(value);
        self.len = len + 1;
        let mut measure = A::Measure::empty();
        std::mem::swap(&mut measure, &mut self.measure);
        self.measure = m.merge(measure);
        proof {
            assert(self.view() =~= seq![value] + v0);
            lemma_measure_concat(seq![value], v0);
            lemma_measure_single(value);
            assert forall|i: int| 0 <= i < N implies (#[trigger] self.items@[i] is Some <==> i < self.len) by {
                if 0 < i <= len {
                    assert(self.items@[i] == old_items[i - 1]);
                    assert(old_items[i - 1] is Some);
                } else if i > len {
                    assert(self.items@[i] == old_items[i]);
                }
            }
        }
    }

    /// A chunk of one element.
    fn singleton(value: A) -> (r: Self)
        requires
            N > 0,
        ensures
            r.wf(),
            r.view() == seq![value],
    {
        let mut chunk = Self::empty();
        chunk.push_back(value);
        assert(Seq::<A>::empty().push(value) =~= seq![value]);
        chunk
    }

    /// Sets the cached measure to the measure of the elements.
    fn recompute_measure(&mut self)
        requires
            old(self).len <= N,
            forall|i: int| 0 <= i < N ==> (#[trigger] old(self).items@[i] is Some <==> i < old(self).len),
        ensures
            final(self).wf(),
            final(self).view() == old(self).view(),
    {
        let mut m = A::Measure::empty();
        let mut i: usize = 0;
        proof {
            lemma_measure_empty::<A>();
            assert(self.view().take(0) =~= Seq::<A>::empty());
        }
        while i < self.len
            invariant
                *self == *old(self),
                i <= self.len,
                self.len <= N,
                forall|k: int| 0 <= k < N ==> (#[trigger] self.items@[k] is Some <==> k < self.len),
                m == measure_of(self.view().take(i as int)),
            decreases self.len - i,
        {
            let v = match &self.items[i] {
                Some(v) => v.measure(),
                None => {
                    proof {
                        assert(self.items@[i as int] is Some);
                    }
                    A::Measure::empty()
                },
            };
            proof {
                lemma_measure_concat(self.view().take(i as int), seq![self.view()[i as int]]);
                lemma_measure_single(self.view()[i as int]);
                assert(self.view().take(i + 1) =~= self.view().take(i as int) + seq![self.view()[i as int]]);
            }
            m = m.merge(v);
            i = i + 1;
        }
        proof {
            assert(self.view().take(self.len as int) =~= self.view());
        }
        self.measure = m;
    }

    /// Removes and returns the first element.
    fn pop_front(&mut self) -> (r: Option<A>)
        requires
            old(self).wf(),
        ensures
            final(self).wf(),
            match r {
                None => old(self).view().len() == 0 && final(self).view() == old(self).view(),
                Some(v) => old(self).view() == seq![v] + final(self).view(),
            },
    {
        if self.len == 0 {
            return None;
        }
        let ghost v0 = self.view();
        let ghost old_items = self.items@;
        let len = self.len;
        let first = self.items[0].take();
        let value = match first {
            Some(v) => v,
            None => {
                proof {
                    assert(old_items[0] is Some);
                }
                return None;
            },
        };
        let mut i: usize = 1;
        while i < len
            invariant
                len == old(self).len,
                1 <= i <= len,
                len <= N,
                self.len == len,
                forall|k: int| 0 <= k < i - 1 ==> self.items@[k] == old_items[k + 1],
                self.items@[i - 1] is None,
                forall|k: int| i <= k < N ==> self.items@[k] == old_items[k],
            decreases len - i,
        {
            let moved = self.items[i].take();
            self.items[i - 1] = moved;
            i = i + 1;
        }
        self.len = len - 1;
        proof {
            assert forall|k: int| 0 <= k < N implies (#[trigger] self.items@[k] is Some <==> k < self.len) by {
                if k < len - 1 {
                    assert(self.items@[k] == old_items[k + 1]);
                } else if k >= len {
                    assert(self.items@[k] == old_items[k]);
                }
            }
            assert(v0 =~= seq![value] + self.view());
        }
        self.recompute_measure();
        Some(value)
    }

    /// Removes and returns the last element.
    fn pop_back(&mut self) -> (r: Option<A>)
        requires
            old(self).wf(),
        ensures
            final(self).wf(),
            match r {
                None => old(self).view().len() == 0 && final(self).view() == old(self).view(),
                Some(v) => old(self).view() == final(self).view().push(v),
            },
    {
        if self.len == 0 {
            return None;
        }
        let ghost v0 = self.view();
        let ghost old_items = self.items@;
        let len = self.len - 1;
        self.len = len;
        let last = self.items[len].take();
        let value = match last {
            Some(v) => v,
            None => {
                proof {
                    assert(old_items[len as int] is Some);
                }
                return None;
            },
        };
        proof {
            assert forall|k: int| 0 <= k < N implies (#[trigger] self.items@[k] is Some <==> k < self.len) by {
                if k != len {
                    assert(self.items@[k] == old_items[k]);
                }
            }
            assert(v0 =~= self.view().push(value));
        }
        self.recompute_measure();
        Some(value)
    }

    /// A copy of the first element.
    fn first(&self) -> (r: Option<A>)
        requires
            self.wf(),
        ensures
            r == (if self.view().len() == 0 { None } else { Some(self.view()[0]) }),
    {
        if self.len == 0 {
            None
        } else {
            Some(self.item(0).duplicate())
        }
    }

    /// A copy of the last element.
    fn last(&self) -> (r: Option<A>)
        requires
            self.wf(),
        ensures
            r == (if self.view().len() == 0 { None } else { Some(self.view().last()) }),
    {
        if self.len == 0 {
            None
        } else {
            Some(self.item(self.len - 1).duplicate())
        }
    }
}

impl<A: Measured, const N: usize> Chunk<A, N> {
    /// What slot `i` holds.
    spec fn spec_slot(&self, i: int) -> Option<A> {
        self.items@[i]
    }

    fn slot_copy(&self, i: usize) -> (r: Option<A>)
        requires
            i < N,
        ensures
            r == self.spec_slot(i as int),
    {
        match &self.items[i] {
            Some(v) => Some(v.duplicate()),
            None => None,
        }
    }
}

impl<A: Measured, const N: usize> Duplicate for Chunk<A, N> {
    fn duplicate(&self) -> (r: Self) {
        let items = array_from_fn(|i: usize| -> (o: Option<A>) requires N > i, ensures o == self.spec_slot(i as int), { self.slot_copy(i) });
        proof {
            assert(items =~= self.items);
        }
        Chunk { measure: self.measure.duplicate(), len: self.len, items }
    }
}

impl<A: Measured, const N: usize> Measured for Chunk<A, N> {
    type Measure = A::Measure;

    closed spec fn spec_measure(&self) -> A::Measure {
        self.measure
    }

    fn measure(&self) -> (r: A::Measure) {
        self.measure.duplicate()
    }
}

/// What splitting the elements `s` of a chunk gives: the first element at which `pred`
/// holds on `offset` merged with the measure so far, with chunks of the elements before and
/// after it.
pub open spec fn chunk_split_ok<A: Measured, const N: usize, F: Fn(&A::Measure) -> bool>(
    s: Seq<A>,
    offset: A::Measure,
    pred: F,
    r: Option<(Option<Chunk<A, N>>, A, Option<Chunk<A, N>>)>,
) -> bool {
    match r {
        None => s.len() == 0 || pred_fails(pred, offset.spec_merge(measure_of(s))),
        Some((before, x, after)) => {
            &&& s == opt_view(before) + seq![x] + opt_view(after)
            &&& (before matches Some(b) ==> b.wf() && b.view().len() > 0)
            &&& (after matches Some(a) ==> a.wf() && a.view().len() > 0)
            &&& pred_holds(pred, offset.spec_merge(measure_of(opt_view(before).push(x))))
            &&& before is Some ==> pred_fails(pred, offset.spec_merge(measure_of(opt_view(before))))
        },
    }
}

impl<A: Measured, const N: usize> Chunk<A, N> {
    /// Takes the element at `start` and those after it, up to `end`, into a new chunk.
    fn take_range(&mut self, start: usize, end: usize) -> (r: Self)
        requires
            old(self).len <= N,
            start < end <= old(self).len,
            forall|k: int| start <= k < end ==> (#[trigger] old(self).items@[k]) is Some,
        ensures
            r.wf(),
            r.view() == Seq::new((end - start) as nat, |k: int| old(self).items@[start + k]->0),
            final(self).len == old(self).len,
            forall|k: int| 0 <= k < N && !(start <= k < end) ==> final(self).items@[k] == old(self).items@[k],
    {
        let ghost old_items = self.items@;
        let mut c = Self::empty();
        let mut j = start;
        while j < end
            invariant
                start <= j <= end,
                end <= self.len <= N,
                self.len == old(self).len,
                c.wf(),
                c.view() == Seq::new((j - start) as nat, |k: int| old_items[start + k]->0),
                forall|k: int| 0 <= k < N && !(start <= k < j) ==> self.items@[k] == old_items[k],
                forall|k: int| start <= k < end ==> (#[trigger] old_items[k]) is Some,
            decreases end - j,
        {
            let v = self.items[j].take();
            let v = match v {
                Some(v) => v,
                None => {
                    proof {
                        assert(old_items[j as int] is Some);
                    }
                    return c;
                },
            };
            c.push_back(v);
            j = j + 1;
            proof {
                assert(c.view() =~= Seq::new((j - start) as nat, |k: int| old_items[start + k]->0));
            }
        }
        c
    }

    /// The elements before `idx`, the element at `idx`, and the elements after it.
    fn split_at(self, idx: usize) -> (r: (Option<Self>, A, Option<Self>))
        requires
            self.wf(),
            idx < self.view().len(),
        ensures
            opt_view(r.0) == self.view().take(idx as int),
            r.1 == self.view()[idx as int],
            opt_view(r.2) == self.view().skip(idx + 1),
            r.0 matches Some(b) ==> b.wf() && b.view().len() > 0,
            r.2 matches Some(a) ==> a.wf() && a.view().len() > 0,
            r.0 is Some <==> idx > 0,
        decreases 0nat,
    {
        let ghost s = self.view();
        let ghost old_items = self.items@;
        let len = self.len;
        let mut this = self;
        let before = if idx > 0 {
            let b = this.take_range(0, idx);
            proof {
                assert(b.view() =~= s.take(idx as int));
            }
            Some(b)
        } else {
            assert(Seq::<A>::empty() =~= s.take(0));
            None
        };
        let middle = this.items[idx].take();
        let middle = match middle {
            Some(v) => v,
            None => {
                proof {
                    assert(old_items[idx as int] is Some);
                }
                return this.split_at(idx);
            },
        };
        let after = if idx + 1 < len {
            let a = this.take_range(idx + 1, len);
            proof {
                assert(a.view() =~= s.skip(idx + 1));
            }
            Some(a)
        } else {
            assert(Seq::<A>::empty() =~= s.skip(idx + 1));
            None
        };
        (before, middle, after)
    }

    /// Splits the chunk at the first element at which `pred` holds on `offset` merged with
    /// the measure of the elements up to and including it.
    fn split_offset<F: Fn(&A::Measure) -> bool>(self, offset: A::Measure, pred: &F) -> (r: Option<(Option<Self>, A, Option<Self>)>)
        requires
            self.wf(),
            is_measure_pred(*pred),
        ensures
            chunk_split_ok::<A, N, F>(self.view(), offset, *pred, r),
    {
        let ghost s = self.view();
        let ghost offset0 = offset;
        let mut acc = offset.duplicate();
        let mut i: usize = 0;
        proof {
            lemma_measure_empty::<A>();
            A::Measure::lemma_empty_identity(offset0);
            assert(s.take(0) =~= Seq::<A>::empty());
        }
        while i < self.len
            invariant
                self.wf(),
                self.view() == s,
                offset0 == offset,
                i <= s.len(),
                is_measure_pred(*pred),
                acc == offset0.spec_merge(measure_of(s.take(i as int))),
                i > 0 ==> pred_fails(*pred, acc),
            decreases s.len() - i,
        {
            let m = self.item(i).measure();
            let next = acc.duplicate().merge(m);
            proof {
                lemma_offset_concat::<A>(offset0, s.take(i as int), seq![s[i as int]]);
                lemma_measure_single(s[i as int]);
                assert(s.take(i as int) + seq![s[i as int]] =~= s.take(i + 1));
            }
            if call_pred(pred, &next) {
                let parts = self.split_at(i);
                proof {
                    assert(opt_view(parts.0).push(parts.1) =~= s.take(i + 1));
                    assert(s =~= opt_view(parts.0) + seq![parts.1] + opt_view(parts.2));
                }
                return Some(parts);
            }
            acc = next;
            i = i + 1;
        }
        proof {
            assert(s.take(s.len() as int) =~= s);
        }
        None
    }
}

/// The elements of a sequence of chunks, one chunk after another.
pub open spec fn chunks_view<A: Measured, const N: usize>(cs: Seq<Chunk<A, N>>) -> Seq<A>
    decreases cs.len(),
{
    if cs.len() == 0 {
        Seq::empty()
    } else {
        chunks_view(cs.drop_last()) + cs.last().view()
    }
}

/// Every chunk is well formed and holds at least one element.
pub open spec fn chunks_ok<A: Measured, const N: usize>(cs: Seq<Chunk<A, N>>) -> bool {
    forall|i: int| 0 <= i < cs.len() ==> #[trigger] cs[i].wf() && cs[i].view().len() > 0
}

pub proof fn lemma_chunks_view_concat<A: Measured, const N: usize>(a: Seq<Chunk<A, N>>, b: Seq<Chunk<A, N>>)
    ensures
        chunks_view(a + b) == chunks_view(a) + chunks_view(b),
    decreases b.len(),
{
    if b.len() == 0 {
        assert(a + b =~= a);
        assert(chunks_view(a) + chunks_view(b) =~= chunks_view(a));
    } else {
        assert((a + b).drop_last() =~= a + b.drop_last());
        lemma_chunks_view_concat(a, b.drop_last());
        assert(chunks_view(a + b) =~= chunks_view(a) + chunks_view(b));
    }
}

pub proof fn lemma_chunks_view_single<A: Measured, const N: usize>(c: Chunk<A, N>)
    ensures
        chunks_view(seq![c]) == c.view(),
{
    assert(seq![c].drop_last() =~= Seq::<Chunk<A, N>>::empty());
    assert(chunks_view(Seq::<Chunk<A, N>>::empty()) =~= Seq::<A>::empty());
    assert(chunks_view(seq![c]) =~= c.view());
}

/// The elements before the chunk `c`, then those of `c`, then those after.
pub proof fn lemma_chunks_view_cons<A: Measured, const N: usize>(c: Chunk<A, N>, t: Seq<Chunk<A, N>>)
    ensures
        chunks_view(seq![c] + t) == c.view() + chunks_view(t),
        chunks_view(t.push(c)) == chunks_view(t) + c.view(),
{
    lemma_chunks_view_concat(seq![c], t);
    lemma_chunks_view_single(c);
    assert(t.push(c).drop_last() =~= t);
}

/// Over well-formed, non-empty chunks the merged chunk measures are the measure of the
/// elements, and there are elements exactly when there are chunks.
pub proof fn lemma_chunks_measure<A: Measured, const N: usize>(cs: Seq<Chunk<A, N>>)
    requires
        chunks_ok(cs),
    ensures
        measure_of(cs) == measure_of(chunks_view(cs)),
        chunks_view(cs).len() == 0 <==> cs.len() == 0,
    decreases cs.len(),
{
    if cs.len() == 0 {
        lemma_measure_empty::<A>();
        lemma_measure_empty::<Chunk<A, N>>();
        assert(cs =~= Seq::<Chunk<A, N>>::empty());
    } else {
        let init = cs.drop_last();
        let c = cs.last();
        assert(chunks_ok(init)) by {
            assert forall|i: int| 0 <= i < init.len() implies #[trigger] init[i].wf() && init[i].view().len() > 0 by {
                assert(init[i] == cs[i]);
            }
        }
        lemma_chunks_measure(init);
        assert(cs[cs.len() - 1] == c);
        assert(init + seq![c] =~= cs);
        lemma_measure_concat(init, seq![c]);
        lemma_measure_single(c);
        c.lemma_wf();
        lemma_measure_concat(chunks_view(init), c.view());
    }
}

/// A finger tree of elements kept in chunks of up to `N`.
pub struct FingerTree<A: Measured, const N: usize, Rf> {
    chunks: RawFingerTree<Chunk<A, N>, Rf>,
}

impl<A: Measured, const N: usize, Rf: Copy> FingerTree<A, N, Rf> {
    /// The tree is well formed in `refs`: its chunks are, and each holds an element.
    pub closed spec fn wf_in<R: FingerTreeRefs<Chunk<A, N>, Rf>>(&self, refs: R) -> bool {
        &&& self.chunks.wf_in(refs)
        &&& chunks_ok(self.chunks.seq_in(refs))
    }

    /// The elements of the tree, in order.
    pub closed spec fn view_in<R: FingerTreeRefs<Chunk<A, N>, Rf>>(&self, refs: R) -> Seq<A> {
        chunks_view(self.chunks.seq_in(refs))
    }

    /// The tree has no elements.
    pub closed spec fn spec_is_empty(&self) -> bool {
        self.chunks.spec_is_empty()
    }

    /// The measure the tree caches.
    pub closed spec fn spec_measure(&self) -> A::Measure {
        self.chunks.spec_measure()
    }

    /// How many levels the tree has below its top one, at most; the room an operation
    /// needs grows with it.
    pub closed spec fn spec_height(&self) -> nat {
        self.chunks.spec_height()
    }

    /// A well-formed tree caches the measure of its elements and is empty exactly when it
    /// has none.
    pub proof fn lemma_wf<R: FingerTreeRefs<Chunk<A, N>, Rf>>(&self, refs: R)
        requires
            self.wf_in(refs),
        ensures
            self.spec_measure() == measure_of(self.view_in(refs)),
            self.spec_is_empty() <==> self.view_in(refs).len() == 0,
    {
        self.chunks.lemma_wf(refs);
        lemma_chunks_measure(self.chunks.seq_in(refs));
    }

    /// An empty tree is well formed in every store.
    pub proof fn lemma_empty<R: FingerTreeRefs<Chunk<A, N>, Rf>>(&self, refs: R)
        requires
            self.spec_is_empty(),
        ensures
            self.wf_in(refs),
            self.view_in(refs) == Seq::<A>::empty(),
    {
        self.chunks.lemma_empty(refs);
    }

    /// A tree stays well formed, with the same elements, when its store grows.
    pub proof fn lemma_extends<R: FingerTreeRefs<Chunk<A, N>, Rf>>(&self, a: R, b: R)
        requires
            self.wf_in(a),
            refs_extend::<Chunk<A, N>, Rf, R>(b, a),
        ensures
            self.wf_in(b),
            self.view_in(b) == self.view_in(a),
    {
        self.chunks.lemma_extends(a, b);
    }

    pub fn new() -> (r: Self)
        ensures
            r.spec_is_empty(),
            r.spec_height() == 0,
    {
        FingerTree { chunks: RawFingerTree::new() }
    }

    pub fn is_empty(&self) -> (r: bool)
        ensures
            r == self.spec_is_empty(),
    {
        self.chunks.is_empty()
    }

    pub fn measure(&self) -> (r: A::Measure)
        ensures
            r == self.spec_measure(),
    {
        self.chunks.measure()
    }

    /// The first element.
    pub fn front<R: FingerTreeRefs<Chunk<A, N>, Rf>>(&self, refs: &R) -> (r: Option<A>)
        requires
            self.wf_in(*refs),
        ensures
            r == (if self.view_in(*refs).len() == 0 { None } else { Some(self.view_in(*refs)[0]) }),
    {
        let ghost cs = self.chunks.seq_in(*refs);
        proof {
            lemma_chunks_measure(cs);
        }
        match self.chunks.front(refs) {
            None => None,
            Some(chunk) => {
                proof {
                    assert(cs[0].wf());
                    assert(seq![cs[0]] + cs.drop_first() =~= cs);
                    lemma_chunks_view_cons(cs[0], cs.drop_first());
                }
                chunk.first()
            },
        }
    }

    /// The last element.
    pub fn back<R: FingerTreeRefs<Chunk<A, N>, Rf>>(&self, refs: &R) -> (r: Option<A>)
        requires
            self.wf_in(*refs),
        ensures
            r == (if self.view_in(*refs).len() == 0 { None } else { Some(self.view_in(*refs).last()) }),
    {
        let ghost cs = self.chunks.seq_in(*refs);
        proof {
            lemma_chunks_measure(cs);
        }
        match self.chunks.back(refs) {
            None => None,
            Some(chunk) => {
                proof {
                    assert(cs[cs.len() - 1].wf());
                }
                chunk.last()
            },
        }
    }
}

pub proof fn lemma_chunks_ok_concat<A: Measured, const N: usize>(a: Seq<Chunk<A, N>>, b: Seq<Chunk<A, N>>)
    ensures
        chunks_ok(a + b) <==> chunks_ok(a) && chunks_ok(b),
{
    let ab = a + b;
    assert forall|i: int| 0 <= i < a.len() implies ab[i] == a[i] by {}
    assert forall|i: int| 0 <= i < b.len() implies ab[a.len() + i] == b[i] by {}
    if chunks_ok(ab) {
        assert forall|i: int| 0 <= i < a.len() implies #[trigger] a[i].wf() && a[i].view().len() > 0 by {
            assert(ab[i].wf());
        }
        assert forall|i: int| 0 <= i < b.len() implies #[trigger] b[i].wf() && b[i].view().len() > 0 by {
            assert(ab[a.len() + i].wf());
        }
    }
    if chunks_ok(a) && chunks_ok(b) {
        assert forall|i: int| 0 <= i < ab.len() implies #[trigger] ab[i].wf() && ab[i].view().len() > 0 by {
            if i < a.len() {
                assert(a[i].wf());
            } else {
                assert(ab[i] == b[i - a.len()]);
                assert(b[i - a.len()].wf());
            }
        }
    }
}

pub proof fn lemma_chunks_ok_single<A: Measured, const N: usize>(c: Chunk<A, N>)
    ensures
        chunks_ok(seq![c]) <==> c.wf() && c.view().len() > 0,
{
    assert(seq![c][0] == c);
}

impl<A: Measured, const N: usize, Rf: Copy> FingerTree<A, N, Rf> {
    /// Adds `value` before the first element.
    pub fn push_front_mut<R: FingerTreeRefs<Chunk<A, N>, Rf>>(&mut self, refs: &mut R, value: A)
        requires
            N > 0,
            old(self).wf_in(*old(refs)),
            room_for::<Chunk<A, N>, Rf, R>(*old(refs), 5 * old(self).spec_height() + 38),
        ensures
            refs_extend::<Chunk<A, N>, Rf, R>(*final(refs), *old(refs)),
            spent::<Chunk<A, N>, Rf, R>(*final(refs), *old(refs), 5 * old(self).spec_height() + 38),
            final(self).spec_height() <= old(self).spec_height() + 6,
            final(self).wf_in(*final(refs)),
            final(self).view_in(*final(refs)) == seq![value] + old(self).view_in(*old(refs)),
    {
        let ghost r0 = *refs;
        let ghost cs = self.chunks.seq_in(r0);
        let popped = self.chunks.pop_front(refs);
        let ghost r1 = *refs;
        let ghost cs1 = self.chunks.seq_in(r1);
        match popped {
            Some(chunk) => {
                proof {
                    lemma_chunks_ok_concat(seq![chunk], cs1);
                    lemma_chunks_ok_single(chunk);
                    lemma_chunks_view_cons(chunk, cs1);
                }
                let mut chunk = chunk;
                let ghost c0 = chunk;
                if !chunk.is_full() {
                    chunk.push_front(value);
                    self.chunks.push_front_mut(refs, chunk);
                    proof {
                        lemma_chunks_ok_concat(seq![chunk], cs1);
                        lemma_chunks_ok_single(chunk);
                        lemma_chunks_view_cons(chunk, cs1);
                        lemma_refs_extend_trans::<Chunk<A, N>, Rf, R>(r0, r1, *refs);
                        assert(seq![value] + (c0.view() + chunks_view(cs1)) =~= chunk.view() + chunks_view(cs1));
                    }
                } else {
                    self.chunks.push_front_mut(refs, chunk);
                    let ghost r2 = *refs;
                    let single = Chunk::singleton(value);
                    self.chunks.push_front_mut(refs, single);
                    proof {
                        let cs2 = seq![chunk] + cs1;
                        lemma_chunks_ok_concat(seq![single], cs2);
                        lemma_chunks_ok_single(single);
                        lemma_chunks_view_cons(single, cs2);
                        lemma_refs_extend_trans::<Chunk<A, N>, Rf, R>(r0, r1, r2);
                        lemma_refs_extend_trans::<Chunk<A, N>, Rf, R>(r0, r2, *refs);
                    }
                }
            },
            None => {
                let single = Chunk::singleton(value);
                self.chunks.push_front_mut(refs, single);
                proof {
                    lemma_chunks_ok_concat(seq![single], cs1);
                    lemma_chunks_ok_single(single);
                    lemma_chunks_view_cons(single, cs1);
                    lemma_refs_extend_trans::<Chunk<A, N>, Rf, R>(r0, r1, *refs);
                    lemma_chunks_measure(cs);
                    lemma_chunks_measure(cs1);
                    assert(seq![value] + chunks_view(cs1) =~= seq![value]);
                }
            },
        }
    }

    /// Adds `value` after the last element.
    pub fn push_back_mut<R: FingerTreeRefs<Chunk<A, N>, Rf>>(&mut self, refs: &mut R, value: A)
        requires
            N > 0,
            old(self).wf_in(*old(refs)),
            room_for::<Chunk<A, N>, Rf, R>(*old(refs), 5 * old(self).spec_height() + 38),
        ensures
            refs_extend::<Chunk<A, N>, Rf, R>(*final(refs), *old(refs)),
            spent::<Chunk<A, N>, Rf, R>(*final(refs), *old(refs), 5 * old(self).spec_height() + 38),
            final(self).spec_height() <= old(self).spec_height() + 6,
            final(self).wf_in(*final(refs)),
            final(self).view_in(*final(refs)) == old(self).view_in(*old(refs)).push(value),
    {
        let ghost r0 = *refs;
        let ghost cs = self.chunks.seq_in(r0);
        let popped = self.chunks.pop_back(refs);
        let ghost r1 = *refs;
        let ghost cs1 = self.chunks.seq_in(r1);
        match popped {
            Some(chunk) => {
                proof {
                    lemma_chunks_ok_concat(cs1, seq![chunk]);
                    lemma_chunks_ok_single(chunk);
                    lemma_chunks_view_cons(chunk, cs1);
                    assert(cs1.push(chunk) =~= cs1 + seq![chunk]);
                }
                let mut chunk = chunk;
                let ghost c0 = chunk;
                if !chunk.is_full() {
                    chunk.push_back(value);
                    self.chunks.push_back_mut(refs, chunk);
                    proof {
                        lemma_chunks_ok_concat(cs1, seq![chunk]);
                        lemma_chunks_ok_single(chunk);
                        lemma_chunks_view_cons(chunk, cs1);
                        assert(cs1.push(chunk) =~= cs1 + seq![chunk]);
                        lemma_refs_extend_trans::<Chunk<A, N>, Rf, R>(r0, r1, *refs);
                        assert((chunks_view(cs1) + c0.view()).push(value) =~= chunks_view(cs1) + chunk.view());
                    }
                } else {
                    self.chunks.push_back_mut(refs, chunk);
                    let ghost r2 = *refs;
                    let single = Chunk::singleton(value);
                    self.chunks.push_back_mut(refs, single);
                    proof {
                        let cs2 = cs1.push(chunk);
                        lemma_chunks_ok_concat(cs2, seq![single]);
                        lemma_chunks_ok_single(single);
                        lemma_chunks_view_cons(single, cs2);
                        assert(cs2.push(single) =~= cs2 + seq![single]);
                        lemma_refs_extend_trans::<Chunk<A, N>, Rf, R>(r0, r1, r2);
                        lemma_refs_extend_trans::<Chunk<A, N>, Rf, R>(r0, r2, *refs);
                        assert(chunks_view(cs2) + seq![value] =~= chunks_view(cs2).push(value));
                    }
                }
            },
            None => {
                let single = Chunk::singleton(value);
                self.chunks.push_back_mut(refs, single);
                proof {
                    lemma_chunks_ok_concat(cs1, seq![single]);
                    lemma_chunks_ok_single(single);
                    lemma_chunks_view_cons(single, cs1);
                    assert(cs1.push(single) =~= cs1 + seq![single]);
                    lemma_refs_extend_trans::<Chunk<A, N>, Rf, R>(r0, r1, *refs);
                    lemma_chunks_measure(cs);
                    lemma_chunks_measure(cs1);
                    assert(chunks_view(cs1) + seq![value] =~= seq![value]);
                    assert(chunks_view(cs).push(value) =~= seq![value]);
                }
            },
        }
    }

    /// Removes and returns the first element.
    pub fn pop_front<R: FingerTreeRefs<Chunk<A, N>, Rf>>(&mut self, refs: &mut R) -> (r: Option<A>)
        requires
            old(self).wf_in(*old(refs)),
            room_for::<Chunk<A, N>, Rf, R>(*old(refs), 3 * old(self).spec_height() + 26),
        ensures
            refs_extend::<Chunk<A, N>, Rf, R>(*final(refs), *old(refs)),
            spent::<Chunk<A, N>, Rf, R>(*final(refs), *old(refs), 3 * old(self).spec_height() + 26),
            final(self).spec_height() <= old(self).spec_height() + 5,
            final(self).wf_in(*final(refs)),
            match r {
                None => old(self).view_in(*old(refs)).len() == 0 && final(self).view_in(*final(refs)).len() == 0,
                Some(v) => old(self).view_in(*old(refs)) == seq![v] + final(self).view_in(*final(refs)),
            },
    {
        let ghost r0 = *refs;
        let ghost cs = self.chunks.seq_in(r0);
        let popped = self.chunks.pop_front(refs);
        let ghost r1 = *refs;
        let ghost cs1 = self.chunks.seq_in(r1);
        let mut chunk = match popped {
            Some(chunk) => chunk,
            None => {
                proof {
                    lemma_chunks_measure(cs);
                    assert(cs1 =~= Seq::<Chunk<A, N>>::empty());
                }
                return None;
            },
        };
        proof {
            lemma_chunks_ok_concat(seq![chunk], cs1);
            lemma_chunks_ok_single(chunk);
            lemma_chunks_view_cons(chunk, cs1);
        }
        let value = match chunk.pop_front() {
            Some(v) => v,
            None => {
                proof {
                    assert(false);
                }
                return None;
            },
        };
        if !chunk.is_empty() {
            self.chunks.push_front_mut(refs, chunk);
            proof {
                lemma_chunks_ok_concat(seq![chunk], cs1);
                lemma_chunks_ok_single(chunk);
                lemma_chunks_view_cons(chunk, cs1);
                lemma_refs_extend_trans::<Chunk<A, N>, Rf, R>(r0, r1, *refs);
            }
        } else {
            proof {
                assert(chunk.view() =~= Seq::<A>::empty());
            }
        }
        Some(value)
    }

    /// Removes and returns the last element.
    pub fn pop_back<R: FingerTreeRefs<Chunk<A, N>, Rf>>(&mut self, refs: &mut R) -> (r: Option<A>)
        requires
            old(self).wf_in(*old(refs)),
            room_for::<Chunk<A, N>, Rf, R>(*old(refs), 3 * old(self).spec_height() + 26),
        ensures
            refs_extend::<Chunk<A, N>, Rf, R>(*final(refs), *old(refs)),
            spent::<Chunk<A, N>, Rf, R>(*final(refs), *old(refs), 3 * old(self).spec_height() + 26),
            final(self).spec_height() <= old(self).spec_height() + 5,
            final(self).wf_in(*final(refs)),
            match r {
                None => old(self).view_in(*old(refs)).len() == 0 && final(self).view_in(*final(refs)).len() == 0,
                Some(v) => old(self).view_in(*old(refs)) == final(self).view_in(*final(refs)).push(v),
            },
    {
        let ghost r0 = *refs;
        let ghost cs = self.chunks.seq_in(r0);
        let popped = self.chunks.pop_back(refs);
        let ghost r1 = *refs;
        let ghost cs1 = self.chunks.seq_in(r1);
        let mut chunk = match popped {
            Some(chunk) => chunk,
            None => {
                proof {
                    lemma_chunks_measure(cs);
                    assert(cs1 =~= Seq::<Chunk<A, N>>::empty());
                }
                return None;
            },
        };
        proof {
            lemma_chunks_ok_concat(cs1, seq![chunk]);
            lemma_chunks_ok_single(chunk);
            lemma_chunks_view_cons(chunk, cs1);
            assert(cs1.push(chunk) =~= cs1 + seq![chunk]);
        }
        let value = match chunk.pop_back() {
            Some(v) => v,
            None => {
                proof {
                    assert(false);
                }
                return None;
            },
        };
        if !chunk.is_empty() {
            self.chunks.push_back_mut(refs, chunk);
            proof {
                lemma_chunks_ok_concat(cs1, seq![chunk]);
                lemma_chunks_ok_single(chunk);
                lemma_chunks_view_cons(chunk, cs1);
                assert(cs1.push(chunk) =~= cs1 + seq![chunk]);
                lemma_refs_extend_trans::<Chunk<A, N>, Rf, R>(r0, r1, *refs);
                assert((chunks_view(cs1) + chunk.view()).push(value) =~= chunks_view(cs1) + chunk.view().push(value));
            }
        } else {
            proof {
                assert(chunk.view() =~= Seq::<A>::empty());
                assert(chunks_view(cs1).push(value) =~= chunks_view(cs1) + seq![value]);
            }
        }
        Some(value)
    }
}

impl<A: Measured, const N: usize, Rf: Copy> Duplicate for FingerTree<A, N, Rf> {
    fn duplicate(&self) -> (r: Self) {
        FingerTree { chunks: self.chunks.duplicate() }
    }
}

impl<A: Measured, const N: usize, Rf: Copy> Clone for FingerTree<A, N, Rf> {
    fn clone(&self) -> (r: Self)
        ensures
            r == *self,
    {
        self.duplicate()
    }
}

impl<A: Measured, const N: usize, Rf: Copy> Measured for FingerTree<A, N, Rf> {
    type Measure = A::Measure;

    closed spec fn spec_measure(&self) -> A::Measure {
        self.chunks.spec_measure()
    }

    fn measure(&self) -> (r: A::Measure) {
        self.chunks.measure()
    }
}

impl<A: Measured, const N: usize, Rf: Copy> Default for FingerTree<A, N, Rf> {
    fn default() -> (r: Self)
        ensures
            r.spec_is_empty(),
    {
        Self::new()
    }
}

impl<A: Measured, const N: usize, Rf: Copy> FingerTree<A, N, Rf> {
    /// The elements of `self`, then those of `other`; both trees stay as they are.
    pub fn concat<R: FingerTreeRefs<Chunk<A, N>, Rf>>(&self, refs: &mut R, other: &Self) -> (r: Self)
        requires
            self.wf_in(*old(refs)),
            other.wf_in(*old(refs)),
            room_for::<Chunk<A, N>, Rf, R>(*old(refs), concat_room(self.spec_height(), other.spec_height())),
        ensures
            refs_extend::<Chunk<A, N>, Rf, R>(*final(refs), *old(refs)),
            spent::<Chunk<A, N>, Rf, R>(*final(refs), *old(refs), concat_room(self.spec_height(), other.spec_height())),
            r.spec_height() <= concat_height(self.spec_height(), other.spec_height()),
            r.wf_in(*final(refs)),
            r.view_in(*final(refs)) == self.view_in(*old(refs)) + other.view_in(*old(refs)),
            self.wf_in(*final(refs)),
            self.view_in(*final(refs)) == self.view_in(*old(refs)),
            other.wf_in(*final(refs)),
            other.view_in(*final(refs)) == other.view_in(*old(refs)),
    {
        let chunks = self.chunks.concat(refs, &other.chunks);
        proof {
            self.lemma_extends(*old(refs), *refs);
            other.lemma_extends(*old(refs), *refs);
            lemma_chunks_ok_concat(self.chunks.seq_in(*old(refs)), other.chunks.seq_in(*old(refs)));
            lemma_chunks_view_concat(self.chunks.seq_in(*old(refs)), other.chunks.seq_in(*old(refs)));
        }
        FingerTree { chunks }
    }

    /// Appends the elements of `other`.
    pub fn concat_mut<R: FingerTreeRefs<Chunk<A, N>, Rf>>(&mut self, refs: &mut R, other: Self)
        requires
            old(self).wf_in(*old(refs)),
            other.wf_in(*old(refs)),
            room_for::<Chunk<A, N>, Rf, R>(*old(refs), concat_room(old(self).spec_height(), other.spec_height())),
        ensures
            refs_extend::<Chunk<A, N>, Rf, R>(*final(refs), *old(refs)),
            spent::<Chunk<A, N>, Rf, R>(*final(refs), *old(refs), concat_room(old(self).spec_height(), other.spec_height())),
            final(self).spec_height() <= concat_height(old(self).spec_height(), other.spec_height()),
            final(self).wf_in(*final(refs)),
            final(self).view_in(*final(refs)) == old(self).view_in(*old(refs)) + other.view_in(*old(refs)),
    {
        let ghost a = self.chunks.seq_in(*refs);
        let ghost b = other.chunks.seq_in(*refs);
        self.chunks.concat_mut(refs, other.chunks);
        proof {
            lemma_chunks_ok_concat(a, b);
            lemma_chunks_view_concat(a, b);
        }
    }

    /// Like `concat_mut`, consuming and returning the tree.
    pub fn into_concat<R: FingerTreeRefs<Chunk<A, N>, Rf>>(self, refs: &mut R, other: Self) -> (r: Self)
        requires
            self.wf_in(*old(refs)),
            other.wf_in(*old(refs)),
            room_for::<Chunk<A, N>, Rf, R>(*old(refs), concat_room(self.spec_height(), other.spec_height())),
        ensures
            refs_extend::<Chunk<A, N>, Rf, R>(*final(refs), *old(refs)),
            spent::<Chunk<A, N>, Rf, R>(*final(refs), *old(refs), concat_room(self.spec_height(), other.spec_height())),
            r.spec_height() <= concat_height(self.spec_height(), other.spec_height()),
            r.wf_in(*final(refs)),
            r.view_in(*final(refs)) == self.view_in(*old(refs)) + other.view_in(*old(refs)),
    {
        let mut tree = self;
        tree.concat_mut(refs, other);
        tree
    }

    /// A tree with `value` before the elements of this one, which stays as it is.
    pub fn push_front<R: FingerTreeRefs<Chunk<A, N>, Rf>>(&self, refs: &mut R, value: A) -> (r: Self)
        requires
            N > 0,
            self.wf_in(*old(refs)),
            room_for::<Chunk<A, N>, Rf, R>(*old(refs), 5 * self.spec_height() + 38),
        ensures
            refs_extend::<Chunk<A, N>, Rf, R>(*final(refs), *old(refs)),
            spent::<Chunk<A, N>, Rf, R>(*final(refs), *old(refs), 5 * self.spec_height() + 38),
            r.spec_height() <= self.spec_height() + 6,
            r.wf_in(*final(refs)),
            r.view_in(*final(refs)) == seq![value] + self.view_in(*old(refs)),
            self.wf_in(*final(refs)),
            self.view_in(*final(refs)) == self.view_in(*old(refs)),
    {
        let ghost r0 = *refs;
        let r = self.duplicate().into_push_front(refs, value);
        proof {
            self.lemma_extends(r0, *refs);
        }
        r
    }

    /// A tree with `value` after the elements of this one, which stays as it is.
    pub fn push_back<R: FingerTreeRefs<Chunk<A, N>, Rf>>(&self, refs: &mut R, value: A) -> (r: Self)
        requires
            N > 0,
            self.wf_in(*old(refs)),
            room_for::<Chunk<A, N>, Rf, R>(*old(refs), 5 * self.spec_height() + 38),
        ensures
            refs_extend::<Chunk<A, N>, Rf, R>(*final(refs), *old(refs)),
            spent::<Chunk<A, N>, Rf, R>(*final(refs), *old(refs), 5 * self.spec_height() + 38),
            r.spec_height() <= self.spec_height() + 6,
            r.wf_in(*final(refs)),
            r.view_in(*final(refs)) == self.view_in(*old(refs)).push(value),
            self.wf_in(*final(refs)),
            self.view_in(*final(refs)) == self.view_in(*old(refs)),
    {
        let ghost r0 = *refs;
        let r = self.duplicate().into_push_back(refs, value);
        proof {
            self.lemma_extends(r0, *refs);
        }
        r
    }

    /// Like `push_front_mut`, consuming and returning the tree.
    pub fn into_push_front<R: FingerTreeRefs<Chunk<A, N>, Rf>>(self, refs: &mut R, value: A) -> (r: Self)
        requires
            N > 0,
            self.wf_in(*old(refs)),
            room_for::<Chunk<A, N>, Rf, R>(*old(refs), 5 * self.spec_height() + 38),
        ensures
            refs_extend::<Chunk<A, N>, Rf, R>(*final(refs), *old(refs)),
            spent::<Chunk<A, N>, Rf, R>(*final(refs), *old(refs), 5 * self.spec_height() + 38),
            r.spec_height() <= self.spec_height() + 6,
            r.wf_in(*final(refs)),
            r.view_in(*final(refs)) == seq![value] + self.view_in(*old(refs)),
    {
        let mut tree = self;
        tree.push_front_mut(refs, value);
        tree
    }

    /// Like `push_back_mut`, consuming and returning the tree.
    pub fn into_push_back<R: FingerTreeRefs<Chunk<A, N>, Rf>>(self, refs: &mut R, value: A) -> (r: Self)
        requires
            N > 0,
            self.wf_in(*old(refs)),
            room_for::<Chunk<A, N>, Rf, R>(*old(refs), 5 * self.spec_height() + 38),
        ensures
            refs_extend::<Chunk<A, N>, Rf, R>(*final(refs), *old(refs)),
            spent::<Chunk<A, N>, Rf, R>(*final(refs), *old(refs), 5 * self.spec_height() + 38),
            r.spec_height() <= self.spec_height() + 6,
            r.wf_in(*final(refs)),
            r.view_in(*final(refs)) == self.view_in(*old(refs)).push(value),
    {
        let mut tree = self;
        tree.push_back_mut(refs, value);
        tree
    }

    /// The first element and a tree of the others; this tree stays as it is.
    pub fn view_front<R: FingerTreeRefs<Chunk<A, N>, Rf>>(&self, refs: &mut R) -> (r: Option<(A, Self)>)
        requires
            self.wf_in(*old(refs)),
            room_for::<Chunk<A, N>, Rf, R>(*old(refs), 3 * self.spec_height() + 26),
        ensures
            refs_extend::<Chunk<A, N>, Rf, R>(*final(refs), *old(refs)),
            spent::<Chunk<A, N>, Rf, R>(*final(refs), *old(refs), 3 * self.spec_height() + 26),
            r matches Some((_, rest)) ==> rest.spec_height() <= self.spec_height() + 5,
            match r {
                None => self.view_in(*old(refs)).len() == 0,
                Some((v, rest)) => rest.wf_in(*final(refs)) && self.view_in(*old(refs)) == seq![v] + rest.view_in(*final(refs)),
            },
            self.wf_in(*final(refs)),
            self.view_in(*final(refs)) == self.view_in(*old(refs)),
    {
        let ghost r0 = *refs;
        let r = self.duplicate().into_view_front(refs);
        proof {
            self.lemma_extends(r0, *refs);
        }
        r
    }

    /// A tree of all elements but the last, and the last; this tree stays as it is.
    pub fn view_back<R: FingerTreeRefs<Chunk<A, N>, Rf>>(&self, refs: &mut R) -> (r: Option<(Self, A)>)
        requires
            self.wf_in(*old(refs)),
            room_for::<Chunk<A, N>, Rf, R>(*old(refs), 3 * self.spec_height() + 26),
        ensures
            refs_extend::<Chunk<A, N>, Rf, R>(*final(refs), *old(refs)),
            spent::<Chunk<A, N>, Rf, R>(*final(refs), *old(refs), 3 * self.spec_height() + 26),
            r matches Some((rest, _)) ==> rest.spec_height() <= self.spec_height() + 5,
            match r {
                None => self.view_in(*old(refs)).len() == 0,
                Some((rest, v)) => rest.wf_in(*final(refs)) && self.view_in(*old(refs)) == rest.view_in(*final(refs)).push(v),
            },
            self.wf_in(*final(refs)),
            self.view_in(*final(refs)) == self.view_in(*old(refs)),
    {
        let ghost r0 = *refs;
        let r = self.duplicate().into_view_back(refs);
        proof {
            self.lemma_extends(r0, *refs);
        }
        r
    }

    /// Like `view_front`, consuming the tree.
    pub fn into_view_front<R: FingerTreeRefs<Chunk<A, N>, Rf>>(self, refs: &mut R) -> (r: Option<(A, Self)>)
        requires
            self.wf_in(*old(refs)),
            room_for::<Chunk<A, N>, Rf, R>(*old(refs), 3 * self.spec_height() + 26),
        ensures
            refs_extend::<Chunk<A, N>, Rf, R>(*final(refs), *old(refs)),
            spent::<Chunk<A, N>, Rf, R>(*final(refs), *old(refs), 3 * self.spec_height() + 26),
            r matches Some((_, rest)) ==> rest.spec_height() <= self.spec_height() + 5,
            match r {
                None => self.view_in(*old(refs)).len() == 0,
                Some((v, rest)) => rest.wf_in(*final(refs)) && self.view_in(*old(refs)) == seq![v] + rest.view_in(*final(refs)),
            },
    {
        let mut tree = self;
        match tree.pop_front(refs) {
            Some(v) => Some((v, tree)),
            None => None,
        }
    }

    /// Like `view_back`, consuming the tree.
    pub fn into_view_back<R: FingerTreeRefs<Chunk<A, N>, Rf>>(self, refs: &mut R) -> (r: Option<(Self, A)>)
        requires
            self.wf_in(*old(refs)),
            room_for::<Chunk<A, N>, Rf, R>(*old(refs), 3 * self.spec_height() + 26),
        ensures
            refs_extend::<Chunk<A, N>, Rf, R>(*final(refs), *old(refs)),
            spent::<Chunk<A, N>, Rf, R>(*final(refs), *old(refs), 3 * self.spec_height() + 26),
            r matches Some((rest, _)) ==> rest.spec_height() <= self.spec_height() + 5,
            match r {
                None => self.view_in(*old(refs)).len() == 0,
                Some((rest, v)) => rest.wf_in(*final(refs)) && self.view_in(*old(refs)) == rest.view_in(*final(refs)).push(v),
            },
    {
        let mut tree = self;
        match tree.pop_back(refs) {
            Some(v) => Some((tree, v)),
            None => None,
        }
    }
}

/// What splitting the elements `s` of a tree gives: the first element at which `pred`
/// holds on the measure of the elements up to and including it, with the trees of the
/// elements before and after it.
pub open spec fn tree_split_ok<A: Measured, const N: usize, Rf: Copy, R: FingerTreeRefs<Chunk<A, N>, Rf>, F: Fn(&A::Measure) -> bool>(
    refs: R,
    s: Seq<A>,
    pred: F,
    r: Option<(FingerTree<A, N, Rf>, A, FingerTree<A, N, Rf>)>,
) -> bool {
    match r {
        None => s.len() == 0 || pred_fails(pred, measure_of(s)),
        Some((front, x, back)) => {
            &&& front.wf_in(refs)
            &&& back.wf_in(refs)
            &&& s == front.view_in(refs).push(x) + back.view_in(refs)
            &&& pred_holds(pred, measure_of(front.view_in(refs).push(x)))
            &&& front.view_in(refs).len() > 0 ==> pred_fails(pred, measure_of(front.view_in(refs)))
        },
    }
}

impl<A: Measured, const N: usize, Rf: Copy> FingerTree<A, N, Rf> {
    /// Splits the tree at the first element at which `pred` holds on the measure of the
    /// elements up to and including it; the tree itself stays as it is.
    pub fn split<R: FingerTreeRefs<Chunk<A, N>, Rf>, F: Fn(&A::Measure) -> bool>(&self, refs: &mut R, pred: F) -> (r: Option<(Self, A, Self)>)
        requires
            self.wf_in(*old(refs)),
            room_for::<Chunk<A, N>, Rf, R>(*old(refs), split_room(self.spec_height()) + 4 * split_height(self.spec_height()) + 4),
            is_measure_pred(pred),
        ensures
            refs_extend::<Chunk<A, N>, Rf, R>(*final(refs), *old(refs)),
            spent::<Chunk<A, N>, Rf, R>(*final(refs), *old(refs), split_room(self.spec_height()) + 4 * split_height(self.spec_height()) + 4),
            r matches Some((f, _, b)) ==> f.spec_height() <= split_height(self.spec_height()) + 1 && b.spec_height() <= split_height(self.spec_height()) + 1,
            tree_split_ok(*final(refs), self.view_in(*old(refs)), pred, r),
            self.wf_in(*final(refs)),
            self.view_in(*final(refs)) == self.view_in(*old(refs)),
    {
        let ghost r0 = *refs;
        let r = self.duplicate().into_split(refs, pred);
        proof {
            self.lemma_extends(r0, *refs);
        }
        r
    }

    /// Like `split`, consuming the tree.
    #[verifier::rlimit(60)]
    pub fn into_split<R: FingerTreeRefs<Chunk<A, N>, Rf>, F: Fn(&A::Measure) -> bool>(self, refs: &mut R, pred: F) -> (r: Option<(Self, A, Self)>)
        requires
            self.wf_in(*old(refs)),
            room_for::<Chunk<A, N>, Rf, R>(*old(refs), split_room(self.spec_height()) + 4 * split_height(self.spec_height()) + 4),
            is_measure_pred(pred),
        ensures
            refs_extend::<Chunk<A, N>, Rf, R>(*final(refs), *old(refs)),
            spent::<Chunk<A, N>, Rf, R>(*final(refs), *old(refs), split_room(self.spec_height()) + 4 * split_height(self.spec_height()) + 4),
            r matches Some((f, _, b)) ==> f.spec_height() <= split_height(self.spec_height()) + 1 && b.spec_height() <= split_height(self.spec_height()) + 1,
            tree_split_ok(*final(refs), self.view_in(*old(refs)), pred, r),
    {
        let ghost r0 = *refs;
        let ghost cs = self.chunks.seq_in(r0);
        proof {
            lemma_chunks_measure(cs);
        }
        let (mut front, chunk, mut back) = match self.chunks.split_with(refs, &pred) {
            Some(x) => x,
            None => {
                return None;
            },
        };
        let ghost r1 = *refs;
        let ghost fc = front.seq_in(r1);
        let ghost bc = back.seq_in(r1);
        proof {
            lemma_chunks_ok_concat(fc.push(chunk), bc);
            assert(fc.push(chunk) =~= fc + seq![chunk]);
            lemma_chunks_ok_concat(fc, seq![chunk]);
            lemma_chunks_ok_single(chunk);
            lemma_chunks_view_concat(fc.push(chunk), bc);
            lemma_chunks_view_cons(chunk, fc);
            lemma_chunks_measure(fc);
            lemma_chunks_measure(fc.push(chunk));
            front.lemma_wf(r1);
            lemma_measure_concat(chunks_view(fc), chunk.view());
        }
        let offset = front.measure();
        let (before, value, after) = match chunk.split_offset(offset, &pred) {
            Some(x) => x,
            None => {
                proof {
                    assert(false);
                }
                return None;
            },
        };
        let ghost bv = opt_view(before);
        let ghost av = opt_view(after);
        proof {
            lemma_measure_concat(chunks_view(fc), bv.push(value));
            lemma_measure_concat(chunks_view(fc), bv);
            assert(chunks_view(fc) + bv.push(value) =~= (chunks_view(fc) + bv).push(value));
        }
        match before {
            Some(before) => {
                front.push_back_mut(refs, before);
                proof {
                    lemma_chunks_ok_concat(fc, seq![before]);
                    lemma_chunks_ok_single(before);
                    lemma_chunks_view_cons(before, fc);
                    assert(fc.push(before) =~= fc + seq![before]);
                }
            },
            None => {
                proof {
                    lemma_store_extends_refl::<Node<Chunk<A, N>, Rf>, Rf, R>(r1);
                    lemma_store_extends_refl::<Tree<Chunk<A, N>, Rf>, Rf, R>(r1);
                    assert(chunks_view(fc) + bv =~= chunks_view(fc));
                }
            },
        }
        let ghost r2 = *refs;
        proof {
            back.lemma_extends(r1, r2);
        }
        match after {
            Some(after) => {
                back.push_front_mut(refs, after);
                proof {
                    lemma_chunks_ok_concat(seq![after], bc);
                    lemma_chunks_ok_single(after);
                    lemma_chunks_view_cons(after, bc);
                }
            },
            None => {
                proof {
                    lemma_store_extends_refl::<Node<Chunk<A, N>, Rf>, Rf, R>(r2);
                    lemma_store_extends_refl::<Tree<Chunk<A, N>, Rf>, Rf, R>(r2);
                    assert(av + chunks_view(bc) =~= chunks_view(bc));
                }
            },
        }
        let ghost r3 = *refs;
        proof {
            front.lemma_extends(r2, r3);
            lemma_refs_extend_trans::<Chunk<A, N>, Rf, R>(r0, r1, r2);
            lemma_refs_extend_trans::<Chunk<A, N>, Rf, R>(r0, r2, r3);
            let fv = chunks_view(fc) + bv;
            let s = chunks_view(cs);
            assert(s =~= fv.push(value) + (av + chunks_view(bc)));
        }
        Some((FingerTree { chunks: front }, value, FingerTree { chunks: back }))
    }
}

/// The values of `values`, last first.
fn reversed<T>(values: Vec<T>) -> (r: Vec<T>)
    ensures
        r@.len() == values@.len(),
        forall|k: int| 0 <= k < r@.len() ==> #[trigger] r@[k] == values@[values@.len() - 1 - k],
{
    let ghost vs = values@;
    let n = values.len();
    let mut values = values;
    let mut rev: Vec<T> = Vec::new();
    while values.len() > 0
        invariant
            values@ == vs.take(values@.len() as int),
            values@.len() <= n,
            n == vs.len(),
            rev@.len() + values@.len() == n,
            forall|k: int| 0 <= k < rev@.len() ==> #[trigger] rev@[k] == vs[n - 1 - k],
        decreases values@.len(),
    {
        let v = values.pop().unwrap();
        rev.push(v);
        assert(values@ =~= vs.take(values@.len() as int));
    }
    rev
}

impl<A: Measured, const N: usize, Rf: Copy> FingerTree<A, N, Rf> {
    /// A tree of the elements of `values`, in order, in chunks of `N`.
    pub fn from_iter_in<R: FingerTreeRefs<Chunk<A, N>, Rf>>(refs: &mut R, values: Vec<A>) -> (r: Self)
        requires
            N > 0,
            room_for::<Chunk<A, N>, Rf, R>(*old(refs), build_room(values@.len())),
        ensures
            refs_extend::<Chunk<A, N>, Rf, R>(*final(refs), *old(refs)),
            spent::<Chunk<A, N>, Rf, R>(*final(refs), *old(refs), build_room(values@.len())),
            r.wf_in(*final(refs)),
            r.view_in(*final(refs)) == values@,
    {
        let ghost r0 = *refs;
        let ghost vs = values@;
        let n = values.len();
        let mut rev = reversed(values);
        let mut chunks = RawFingerTree::new();
        let mut chunk = Chunk::empty();
        let ghost mut pushed: nat = 0;
        proof {
            lemma_store_extends_refl::<Node<Chunk<A, N>, Rf>, Rf, R>(r0);
            lemma_store_extends_refl::<Tree<Chunk<A, N>, Rf>, Rf, R>(r0);
            chunks.lemma_empty(r0);
            assert(chunks_view(Seq::<Chunk<A, N>>::empty()) =~= Seq::<A>::empty());
            assert(vs.take(0) =~= Seq::<A>::empty());
        }
        while rev.len() > 0
            invariant
                N > 0,
                n == vs.len(),
                rev@.len() <= n,
                forall|k: int| 0 <= k < rev@.len() ==> #[trigger] rev@[k] == vs[n - 1 - k],
                refs_extend::<Chunk<A, N>, Rf, R>(*refs, r0),
                room_for::<Chunk<A, N>, Rf, R>(r0, build_room(n as nat)),
                spent::<Chunk<A, N>, Rf, R>(*refs, r0, build_room(pushed)),
                pushed + chunk.view().len() <= n - rev@.len(),
                pushed == 0 ==> chunks.spec_is_empty() && chunks.spec_height() == 0,
                pushed > 0 ==> chunks.spec_height() < pushed,
                chunks.wf_in(*refs),
                chunks_ok(chunks.seq_in(*refs)),
                chunk.wf(),
                chunks_view(chunks.seq_in(*refs)) + chunk.view() == vs.take(n - rev@.len()),
            decreases rev@.len(),
        {
            let ghost j = n - rev@.len();
            let value = rev.pop().unwrap();
            proof {
                assert(value == vs[j]);
                assert(vs.take(j + 1) =~= vs.take(j).push(value));
            }
            if chunk.is_full() {
                let ghost rc = *refs;
                let ghost cs = chunks.seq_in(rc);
                let full = chunk;
                proof {
                    lemma_build_step(pushed, n as nat);
                }
                chunks.push_back_mut(refs, full);
                chunk = Chunk::empty();
                proof {
                    pushed = pushed + 1;
                    lemma_refs_extend_trans::<Chunk<A, N>, Rf, R>(r0, rc, *refs);
                    lemma_chunks_ok_concat(cs, seq![full]);
                    lemma_chunks_ok_single(full);
                    lemma_chunks_view_cons(full, cs);
                    assert(cs.push(full) =~= cs + seq![full]);
                    assert(chunks_view(cs.push(full)) + chunk.view() =~= chunks_view(cs) + full.view());
                }
            }
            let ghost cv = chunk.view();
            chunk.push_back(value);
            proof {
                assert(chunks_view(chunks.seq_in(*refs)) + chunk.view() =~= (chunks_view(chunks.seq_in(*refs)) + cv).push(value));
            }
        }
        proof {
            assert(vs.take(n as int) =~= vs);
        }
        if !chunk.is_empty() {
            let ghost rc = *refs;
            let ghost cs = chunks.seq_in(rc);
            proof {
                lemma_build_step(pushed, n as nat);
            }
            chunks.push_back_mut(refs, chunk);
            proof {
                lemma_build_monotone(pushed + 1, n as nat);
                lemma_refs_extend_trans::<Chunk<A, N>, Rf, R>(r0, rc, *refs);
                lemma_chunks_ok_concat(cs, seq![chunk]);
                lemma_chunks_ok_single(chunk);
                lemma_chunks_view_cons(chunk, cs);
                assert(cs.push(chunk) =~= cs + seq![chunk]);
            }
        } else {
            proof {
                lemma_build_monotone(pushed, n as nat);
                assert(chunks_view(chunks.seq_in(*refs)) + chunk.view() =~= chunks_view(chunks.seq_in(*refs)));
            }
        }
        FingerTree { chunks }
    }
}

/// The usual size of a CPU cache line, in bytes.
pub const CACHE_LINE_BYTES: usize = 64;

/// How many items of `item` bytes each fit in `target` bytes after a fixed part of `zero`
/// bytes; one when none fits or the items take no room.
pub open spec fn spec_chunk_capacity(zero: int, item: int, target: int) -> int {
    let payload = if target > zero { target - zero } else { 0 };
    if item <= 0 || payload / item == 0 {
        1
    } else {
        payload / item
    }
}

/// How many elements a chunk holds so that it takes about `target_bytes`: after the fixed
/// part of a chunk (the layout of a chunk of no element), each element counts at its own
/// size.
pub fn chunk_capacity_for_bytes<A: Measured>(target_bytes: usize) -> (r: usize)
    ensures
        r == spec_chunk_capacity(
            vstd::layout::size_of::<Chunk<A, 0>>() as int,
            vstd::layout::size_of::<A>() as int,
            target_bytes as int,
        ),
        r >= 1,
{
    let zero = core::mem::size_of::<Chunk<A, 0>>();
    let item = core::mem::size_of::<A>();
    let payload = target_bytes.saturating_sub(zero);
    match payload.checked_div(item) {
        Some(cap) => {
            if cap > 0 {
                cap
            } else {
                1
            }
        },
        None => 1,
    }
}

impl<A: Measured, const N: usize, Rf: Copy> FingerTree<A, N, Rf> {
    /// The tree with each reference replaced by `g` of it.
    pub closed spec fn spec_map_refs<Sf>(&self, g: spec_fn(Rf) -> Sf) -> FingerTree<A, N, Sf> {
        FingerTree { chunks: self.chunks.spec_map_refs(g) }
    }

    /// A tree read through a mapped store means what it means in the store it was mapped from.
    pub proof fn lemma_map_refs<Sf: Copy, R1: FingerTreeRefs<Chunk<A, N>, Rf>, R2: FingerTreeRefs<Chunk<A, N>, Sf>>(&self, r1: R1, r2: R2, g: spec_fn(Rf) -> Sf)
        requires
            self.wf_in(r1),
            refs_map_from::<Chunk<A, N>, Rf, Sf, R1, R2>(r2, r1, g),
        ensures
            self.spec_map_refs(g).wf_in(r2),
            self.spec_map_refs(g).view_in(r2) == self.view_in(r1),
    {
        self.chunks.lemma_map_refs(r1, r2, g);
    }

    pub(crate) fn map_refs<Sf, F: Fn(&Rf) -> Sf>(&self, f: &F, Ghost(g): Ghost<spec_fn(Rf) -> Sf>) -> (r: FingerTree<A, N, Sf>)
        requires
            forall|x: Rf| #[trigger] f.requires((&x,)),
            forall|x: Rf, y: Sf| #[trigger] f.ensures((&x,), y) ==> y == g(x),
        ensures
            r == self.spec_map_refs(g),
    {
        FingerTree { chunks: self.chunks.map_refs(f, Ghost(g)) }
    }
}

} // verus!
