use std::marker::PhantomData;
use std::rc::Rc;
use std::sync::Arc;
use vstd::prelude::*;

verus! {

/// A value that can be copied into an equal value.
pub trait Duplicate: Sized {
    fn duplicate(&self) -> (r: Self)
        ensures
            r == *self,
    ;
}

/// The type of the references that a store, or the stores of a factory, hand out.
pub trait StoreRef {
    type Ref: Copy;
}

/// A store of values of type `T`, each reached through a reference of type `Ref`.
///
/// A store only grows: allocating keeps every earlier reference and the value behind it.
pub trait RefStore<T, Ref>: Sized {
    /// `r` was handed out by this store.
    spec fn spec_contains(&self, r: Ref) -> bool;

    /// The value behind `r`.
    spec fn spec_get(&self, r: Ref) -> T;

    /// The store holds at most a fixed number of values.
    spec fn spec_bounded(&self) -> bool;

    /// For a bounded store, how many more values it can take.
    spec fn spec_room(&self) -> nat;

    /// Each allocation hands out a reference that the store did not hold before.
    spec fn spec_fresh_refs(&self) -> bool;

    fn allocate(&mut self, value: T) -> (r: Ref)
        requires
            !old(self).spec_bounded() || old(self).spec_room() > 0,
        ensures
            old(self).spec_fresh_refs() ==> !old(self).spec_contains(r),
            final(self).spec_contains(r),
            final(self).spec_get(r) == value,
            forall|q: Ref| #[trigger] old(self).spec_contains(q) ==> final(self).spec_contains(q) && final(self).spec_get(q) == old(self).spec_get(q),
            final(self).spec_bounded() == old(self).spec_bounded(),
            final(self).spec_fresh_refs() == old(self).spec_fresh_refs(),
            old(self).spec_bounded() ==> final(self).spec_room() == old(self).spec_room() - 1,
    ;

    /// A copy of the value behind `r`.
    fn read(&self, r: &Ref) -> (t: T)
        where T: Duplicate,
        requires
            self.spec_contains(*r),
        ensures
            t == self.spec_get(*r),
    ;

    /// Calls `f` on the value behind `r`.
    fn with_ref<U, F: FnOnce(&T) -> U>(&self, reference: &Ref, f: F) -> (u: U)
        where T: Duplicate,
        requires
            self.spec_contains(*reference),
            f.requires((&self.spec_get(*reference),)),
        ensures
            f.ensures((&self.spec_get(*reference),), u),
    {
        let value = self.read(reference);
        f(&value)
    }
}

/// Every reference of `old` is in `new`, with the same value.
pub open spec fn store_extends<T, Ref, R: RefStore<T, Ref>>(new: R, old: R) -> bool {
    &&& forall|q: Ref| #[trigger] old.spec_contains(q) ==> new.spec_contains(q) && new.spec_get(q) == old.spec_get(q)
    &&& new.spec_bounded() == old.spec_bounded()
    &&& new.spec_fresh_refs() == old.spec_fresh_refs()
}

/// `store_extends` is reflexive.
pub proof fn lemma_store_extends_refl<T, Ref, R: RefStore<T, Ref>>(s: R)
    ensures
        store_extends(s, s),
{
}

/// `store_extends` is transitive.
pub proof fn lemma_store_extends_trans<T, Ref, R: RefStore<T, Ref>>(a: R, b: R, c: R)
    requires
        store_extends(b, a),
        store_extends(c, b),
    ensures
        store_extends(c, a),
{
}

/// A store whose values can be replaced in place.
pub trait RefStoreMut<T, Ref>: RefStore<T, Ref> {
    fn set_ref(&mut self, reference: &Ref, value: T)
        requires
            old(self).spec_contains(*reference),
        ensures
            final(self).spec_get(*reference) == value,
            forall|q: Ref| #[trigger] final(self).spec_contains(q) == old(self).spec_contains(q),
            forall|q: Ref| old(self).spec_contains(q) && q != *reference ==> #[trigger] final(self).spec_get(q) == old(self).spec_get(q),
            final(self).spec_bounded() == old(self).spec_bounded(),
            final(self).spec_room() == old(self).spec_room(),
            final(self).spec_fresh_refs() == old(self).spec_fresh_refs(),
    ;

    /// Puts `value` behind `reference` and returns the value that was there.
    fn replace_ref(&mut self, reference: &Ref, value: T) -> (previous: T)
        requires
            old(self).spec_contains(*reference),
        ensures
            previous == old(self).spec_get(*reference),
            final(self).spec_get(*reference) == value,
            forall|q: Ref| #[trigger] final(self).spec_contains(q) == old(self).spec_contains(q),
            forall|q: Ref| old(self).spec_contains(q) && q != *reference ==> #[trigger] final(self).spec_get(q) == old(self).spec_get(q),
            final(self).spec_bounded() == old(self).spec_bounded(),
            final(self).spec_room() == old(self).spec_room(),
            final(self).spec_fresh_refs() == old(self).spec_fresh_refs(),
    ;
}

/// Makes a fresh, empty store for values of type `T`.
pub trait RefStoreFactory<T>: StoreRef + Sized {
    type Store: RefStore<T, <Self as StoreRef>::Ref>;

    /// The stores this factory makes hold any number of values.
    spec fn spec_unbounded_stores(&self) -> bool;

    /// How many values a new store of this factory can take, where it is bounded.
    spec fn spec_store_room(&self) -> nat;

    fn store(&self) -> (s: Self::Store)
        ensures
            self.spec_unbounded_stores() ==> !s.spec_bounded(),
            s.spec_bounded() ==> s.spec_room() == self.spec_store_room(),
            s.spec_fresh_refs(),
    ;
}

/// Turns a value of another store into a value of this one.
pub trait RefMapper<T> {
    type Source: Duplicate;

    spec fn spec_map_ref(value: Self::Source) -> T;

    fn map_ref(value: &Self::Source) -> (r: T)
        ensures
            r == Self::spec_map_ref(*value),
    ;
}

/// A store that reads older values from a shared base store and allocates new values in
/// a scratch store of its own.
pub struct LayeredStore<'base, Base, Scratch, Mapper> {
    base: &'base Base,
    scratch: Scratch,
    mapper: PhantomData<Mapper>,
}

/// Makes layered stores over one base store, each with a fresh scratch arena.
pub struct LayeredArenaStoreFactory<'base, 'scratch, Base, Mapper> {
    base: &'base Base,
    capacity: usize,
    marker: PhantomData<(&'scratch mut &'scratch (), Mapper)>,
}

/// A reference of a layered store: it says whether the value lives in the base store or in
/// the scratch store.
#[derive(Clone, Copy, PartialEq, Eq, Debug)]
pub enum LayeredRef<BaseRef, ScratchRef> {
    Base(BaseRef),
    Scratch(ScratchRef),
}

/// A store that keeps each value behind its own `Rc`.
#[derive(Default)]
pub struct RcStore;

/// A store that keeps each value behind its own `Arc`.
#[derive(Default)]
pub struct ArcStore;

/// Makes stores for trees shared within one thread; the nodes live in an arena that the
/// store owns and frees, all together, when it is dropped. A tree's nodes are reached
/// through indices into that arena, so each version of a tree stays tied to its store.
#[derive(Default)]
pub struct RcStoreFactory;

/// Makes stores for trees that may move between threads; the nodes live in an arena that
/// the store owns and frees, all together, when it is dropped. A tree's nodes are reached
/// through indices into that arena, so each version of a tree stays tied to its store.
#[derive(Default)]
pub struct ArcStoreFactory;

impl<T> RefStore<T, Rc<T>> for RcStore {
    open spec fn spec_contains(&self, r: Rc<T>) -> bool {
        true
    }

    open spec fn spec_get(&self, r: Rc<T>) -> T {
        *r
    }

    open spec fn spec_bounded(&self) -> bool {
        false
    }

    open spec fn spec_room(&self) -> nat {
        0
    }

    open spec fn spec_fresh_refs(&self) -> bool {
        false
    }

    fn allocate(&mut self, value: T) -> (r: Rc<T>) {
        Rc::new(value)
    }

    fn read(&self, r: &Rc<T>) -> (t: T)
        where T: Duplicate,
    {
        (**r).duplicate()
    }

    fn with_ref<U, F: FnOnce(&T) -> U>(&self, reference: &Rc<T>, f: F) -> (u: U)
        where T: Duplicate,
    {
        f(&**reference)
    }
}

impl<T> RefStore<T, Arc<T>> for ArcStore {
    open spec fn spec_contains(&self, r: Arc<T>) -> bool {
        true
    }

    open spec fn spec_get(&self, r: Arc<T>) -> T {
        *r
    }

    open spec fn spec_bounded(&self) -> bool {
        false
    }

    open spec fn spec_room(&self) -> nat {
        0
    }

    open spec fn spec_fresh_refs(&self) -> bool {
        false
    }

    fn allocate(&mut self, value: T) -> (r: Arc<T>) {
        Arc::new(value)
    }

    fn read(&self, r: &Arc<T>) -> (t: T)
        where T: Duplicate,
    {
        (**r).duplicate()
    }

    fn with_ref<U, F: FnOnce(&T) -> U>(&self, reference: &Arc<T>, f: F) -> (u: U)
        where T: Duplicate,
    {
        f(&**reference)
    }
}

impl StoreRef for RcStoreFactory {
    type Ref = ArenaRef<'static>;
}

impl<T> RefStoreFactory<T> for RcStoreFactory {
    type Store = Arena<'static, T>;

    open spec fn spec_unbounded_stores(&self) -> bool {
        true
    }

    open spec fn spec_store_room(&self) -> nat {
        0
    }

    /// An empty arena.
    fn store(&self) -> (s: Arena<'static, T>)
        ensures
            s.spec_values() == Seq::<T>::empty(),
            forall|r: ArenaRef<'static>| !RefStore::<T, ArenaRef<'static>>::spec_contains(&s, r),
    {
        Arena::with_capacity(0)
    }
}

impl StoreRef for ArcStoreFactory {
    type Ref = ArenaRef<'static>;
}

impl<T> RefStoreFactory<T> for ArcStoreFactory {
    type Store = Arena<'static, T>;

    open spec fn spec_unbounded_stores(&self) -> bool {
        true
    }

    open spec fn spec_store_room(&self) -> nat {
        0
    }

    /// An empty arena.
    fn store(&self) -> (s: Arena<'static, T>)
        ensures
            s.spec_values() == Seq::<T>::empty(),
            forall|r: ArenaRef<'static>| !RefStore::<T, ArenaRef<'static>>::spec_contains(&s, r),
    {
        Arena::with_capacity(0)
    }
}

impl<'base, Base, Scratch, Mapper> LayeredStore<'base, Base, Scratch, Mapper> {
    /// The base store.
    pub closed spec fn spec_base(&self) -> &'base Base {
        self.base
    }

    /// The scratch store.
    pub closed spec fn spec_scratch(&self) -> Scratch {
        self.scratch
    }

    pub fn new(base: &'base Base, scratch: Scratch) -> (r: Self)
        ensures
            r.spec_base() == base,
            r.spec_scratch() == scratch,
    {
        LayeredStore { base, scratch, mapper: PhantomData }
    }

    /// Calls `f` on a value of the base store.
    pub fn with_base_ref<T: Duplicate, BR, U, F: FnOnce(&T) -> U>(&self, reference: &BR, f: F) -> (u: U)
        where Base: RefStore<T, BR>,
        requires
            self.spec_base().spec_contains(*reference),
            f.requires((&self.spec_base().spec_get(*reference),)),
        ensures
            f.ensures((&self.spec_base().spec_get(*reference),), u),
    {
        self.base.with_ref(reference, f)
    }

    /// Calls `f` on a value of the scratch store.
    pub fn with_scratch_ref<T: Duplicate, SR, U, F: FnOnce(&T) -> U>(&self, reference: &SR, f: F) -> (u: U)
        where Scratch: RefStore<T, SR>,
        requires
            self.spec_scratch().spec_contains(*reference),
            f.requires((&self.spec_scratch().spec_get(*reference),)),
        ensures
            f.ensures((&self.spec_scratch().spec_get(*reference),), u),
    {
        self.scratch.with_ref(reference, f)
    }
}

impl<'base, 'scratch, Base, Mapper> LayeredArenaStoreFactory<'base, 'scratch, Base, Mapper> {
    /// The base store.
    pub closed spec fn spec_base(&self) -> &'base Base {
        self.base
    }

    pub fn new(base: &'base Base, capacity: usize) -> (r: Self)
        ensures
            r.spec_base() == base,
    {
        LayeredArenaStoreFactory { base, capacity, marker: PhantomData }
    }

    /// A layered store over the base store, with an empty scratch arena.
    pub fn store_with_capacity<T>(&self, capacity: usize) -> (r: LayeredStore<'base, Base, Arena<'scratch, T>, Mapper>)
        ensures
            r.spec_base() == self.spec_base(),
            r.spec_scratch().spec_values() == Seq::<T>::empty(),
            forall|q: ArenaRef<'scratch>| !r.spec_scratch().spec_contains(q),
            !r.spec_scratch().spec_bounded(),
            r.spec_scratch().spec_fresh_refs(),
    {
        LayeredStore::new(self.base, Arena::with_capacity(capacity))
    }
}

impl<'base, 'scratch, Base: StoreRef, Mapper> StoreRef for LayeredArenaStoreFactory<'base, 'scratch, Base, Mapper> {
    type Ref = LayeredRef<<Base as StoreRef>::Ref, ArenaRef<'scratch>>;
}

impl<'base, 'scratch, T, Base, Mapper> RefStoreFactory<T> for LayeredArenaStoreFactory<'base, 'scratch, Base, Mapper> where
    Base: StoreRef + RefStore<<Mapper as RefMapper<T>>::Source, <Base as StoreRef>::Ref>,
    Mapper: RefMapper<T>,
 {
    type Store = LayeredStore<'base, Base, Arena<'scratch, T>, Mapper>;

    open spec fn spec_unbounded_stores(&self) -> bool {
        true
    }

    open spec fn spec_store_room(&self) -> nat {
        0
    }

    /// A layered store over the base store, with an empty scratch arena.
    fn store(&self) -> (s: LayeredStore<'base, Base, Arena<'scratch, T>, Mapper>)
        ensures
            s.spec_base() == self.spec_base(),
            s.spec_scratch().spec_values() == Seq::<T>::empty(),
            forall|q: ArenaRef<'scratch>| !s.spec_scratch().spec_contains(q),
    {
        self.store_with_capacity(self.capacity)
    }
}

impl<'base, T, BR, SR, Base, Scratch, Mapper> RefStore<T, LayeredRef<BR, SR>> for LayeredStore<'base, Base, Scratch, Mapper> where
    Base: RefStore<<Mapper as RefMapper<T>>::Source, BR>,
    Scratch: RefStore<T, SR>,
    Mapper: RefMapper<T>,
 {
    closed spec fn spec_contains(&self, r: LayeredRef<BR, SR>) -> bool {
        match r {
            LayeredRef::Base(r) => self.base.spec_contains(r),
            LayeredRef::Scratch(r) => self.scratch.spec_contains(r),
        }
    }

    closed spec fn spec_get(&self, r: LayeredRef<BR, SR>) -> T {
        match r {
            LayeredRef::Base(r) => Mapper::spec_map_ref(self.base.spec_get(r)),
            LayeredRef::Scratch(r) => self.scratch.spec_get(r),
        }
    }

    closed spec fn spec_bounded(&self) -> bool {
        self.scratch.spec_bounded()
    }

    closed spec fn spec_room(&self) -> nat {
        self.scratch.spec_room()
    }

    closed spec fn spec_fresh_refs(&self) -> bool {
        self.scratch.spec_fresh_refs()
    }

    /// New values always go to the scratch store; the base store is never written.
    fn allocate(&mut self, value: T) -> (r: LayeredRef<BR, SR>)
        ensures
            r is Scratch,
            final(self).spec_base() == old(self).spec_base(),
    {
        LayeredRef::Scratch(self.scratch.allocate(value))
    }

    fn with_ref<U, F: FnOnce(&T) -> U>(&self, reference: &LayeredRef<BR, SR>, f: F) -> (u: U)
        where T: Duplicate,
    {
        let value = self.read(reference);
        f(&value)
    }

    fn read(&self, r: &LayeredRef<BR, SR>) -> (t: T)
        where T: Duplicate,
    {
        match r {
            LayeredRef::Base(r) => {
                let source = self.base.read(r);
                Mapper::map_ref(&source)
            }
            LayeredRef::Scratch(r) => self.scratch.read(r),
        }
    }
}

impl<'base, Base, Scratch, Mapper> LayeredStore<'base, Base, Scratch, Mapper> {
    /// Base references read the base store through the mapper; scratch references read the
    /// scratch store.
    pub proof fn lemma_layers<T, BR, SR>(&self)
        where
            Base: RefStore<<Mapper as RefMapper<T>>::Source, BR>,
            Scratch: RefStore<T, SR>,
            Mapper: RefMapper<T>,
        ensures
            forall|r: BR| #[trigger] <Self as RefStore<T, LayeredRef<BR, SR>>>::spec_contains(self, LayeredRef::Base(r)) == self.spec_base().spec_contains(r),
            forall|r: BR| #[trigger] <Self as RefStore<T, LayeredRef<BR, SR>>>::spec_get(self, LayeredRef::Base(r)) == Mapper::spec_map_ref(self.spec_base().spec_get(r)),
            forall|r: SR| #[trigger] <Self as RefStore<T, LayeredRef<BR, SR>>>::spec_contains(self, LayeredRef::Scratch(r)) == self.spec_scratch().spec_contains(r),
            forall|r: SR| #[trigger] <Self as RefStore<T, LayeredRef<BR, SR>>>::spec_get(self, LayeredRef::Scratch(r)) == self.spec_scratch().spec_get(r),
            <Self as RefStore<T, LayeredRef<BR, SR>>>::spec_bounded(self) == self.spec_scratch().spec_bounded(),
    {
    }
}

/// A reference into an arena: an index, tied by its lifetime to the scope that made the arena.
#[derive(Clone, Copy, PartialEq, Eq, Debug)]
pub struct ArenaRef<'id> {
    index: usize,
    brand: PhantomData<&'id mut &'id ()>,
}

impl<'id> ArenaRef<'id> {
    /// The index of the value in the arena.
    pub closed spec fn spec_index(&self) -> nat {
        self.index as nat
    }
}

/// A growable store of values, all in one vector.
pub struct Arena<'id, T> {
    storage: Vec<T>,
    brand: PhantomData<&'id mut &'id ()>,
}

/// A store of at most `N` values.
pub struct ConstArena<'id, T, const N: usize> {
    storage: Vec<T>,
    brand: PhantomData<&'id mut &'id ()>,
}

/// Makes arenas of the given initial capacity, all tied to one scope.
pub struct ArenaStoreFactory<'id> {
    capacity: usize,
    brand: PhantomData<&'id mut &'id ()>,
}

/// Makes arenas of `N` values each, all tied to one scope.
pub struct ConstArenaStoreFactory<'id, const N: usize> {
    brand: PhantomData<&'id mut &'id ()>,
}

impl<'id> ArenaStoreFactory<'id> {
    /// The initial capacity of the arenas this factory makes.
    pub closed spec fn spec_capacity(&self) -> usize {
        self.capacity
    }
}

impl ArenaStoreFactory<'_> {
    /// Runs `f` with a factory whose arenas are tied to a scope of their own.
    pub fn scoped<T, F>(capacity: usize, f: F) -> (r: T)
        where F: for<'id> FnOnce(ArenaStoreFactory<'id>) -> T,
        requires
            forall|factory: ArenaStoreFactory| factory.spec_capacity() == capacity ==> #[trigger] f.requires((factory,)),
        ensures
            exists|factory: ArenaStoreFactory| factory.spec_capacity() == capacity && #[trigger] f.ensures((factory,), r),
    {
        let factory = ArenaStoreFactory { capacity, brand: PhantomData };
        f(factory)
    }
}

impl<const N: usize> ConstArenaStoreFactory<'_, N> {
    /// Runs `f` with a factory whose arenas are tied to a scope of their own.
    pub fn scoped<T, F>(f: F) -> (r: T)
        where F: for<'id> FnOnce(ConstArenaStoreFactory<'id, N>) -> T,
        requires
            forall|factory: ConstArenaStoreFactory<N>| #[trigger] f.requires((factory,)),
        ensures
            exists|factory: ConstArenaStoreFactory<N>| #[trigger] f.ensures((factory,), r),
    {
        let factory = ConstArenaStoreFactory { brand: PhantomData };
        f(factory)
    }
}

impl<'id, T> Arena<'id, T> {
    /// The values, in allocation order.
    pub closed spec fn spec_values(&self) -> Seq<T> {
        self.storage@
    }

    pub(crate) fn with_capacity(capacity: usize) -> (r: Self)
        ensures
            r.spec_values() == Seq::<T>::empty(),
    {
        Arena { storage: Vec::with_capacity(capacity), brand: PhantomData }
    }
}

impl<'id, T, const N: usize> ConstArena<'id, T, N> {
    /// The values, in allocation order.
    pub closed spec fn spec_values(&self) -> Seq<T> {
        self.storage@
    }

    fn new(brand: PhantomData<&'id mut &'id ()>) -> (r: Self)
        ensures
            r.spec_values() == Seq::<T>::empty(),
    {
        ConstArena { storage: Vec::new(), brand }
    }
}

impl<'id> StoreRef for ArenaStoreFactory<'id> {
    type Ref = ArenaRef<'id>;
}

impl<'id, T> RefStoreFactory<T> for ArenaStoreFactory<'id> {
    type Store = Arena<'id, T>;

    open spec fn spec_unbounded_stores(&self) -> bool {
        true
    }

    open spec fn spec_store_room(&self) -> nat {
        0
    }

    /// An empty arena.
    fn store(&self) -> (s: Arena<'id, T>)
        ensures
            s.spec_values() == Seq::<T>::empty(),
            forall|r: ArenaRef<'id>| !RefStore::<T, ArenaRef<'id>>::spec_contains(&s, r),
    {
        Arena { storage: Vec::with_capacity(self.capacity), brand: self.brand }
    }
}

impl<'id, const N: usize> StoreRef for ConstArenaStoreFactory<'id, N> {
    type Ref = ArenaRef<'id>;
}

impl<'id, T, const N: usize> RefStoreFactory<T> for ConstArenaStoreFactory<'id, N> {
    type Store = ConstArena<'id, T, N>;

    open spec fn spec_unbounded_stores(&self) -> bool {
        false
    }

    open spec fn spec_store_room(&self) -> nat {
        N as nat
    }

    /// An empty arena with room for `N` values.
    fn store(&self) -> (s: ConstArena<'id, T, N>)
        ensures
            s.spec_values() == Seq::<T>::empty(),
            forall|r: ArenaRef<'id>| !RefStore::<T, ArenaRef<'id>>::spec_contains(&s, r),
            RefStore::<T, ArenaRef<'id>>::spec_room(&s) == N,
    {
        ConstArena::new(self.brand)
    }
}

impl<'id, T> RefStore<T, ArenaRef<'id>> for Arena<'id, T> {
    open spec fn spec_contains(&self, r: ArenaRef<'id>) -> bool {
        r.spec_index() < self.spec_values().len()
    }

    open spec fn spec_get(&self, r: ArenaRef<'id>) -> T {
        self.spec_values()[r.spec_index() as int]
    }

    open spec fn spec_bounded(&self) -> bool {
        false
    }

    open spec fn spec_room(&self) -> nat {
        0
    }

    open spec fn spec_fresh_refs(&self) -> bool {
        true
    }

    /// The new value goes at the end: its reference has the next index.
    fn allocate(&mut self, value: T) -> (r: ArenaRef<'id>)
        ensures
            r.spec_index() == old(self).spec_values().len(),
            final(self).spec_values() == old(self).spec_values().push(value),
    {
        let index = self.storage.len();
        self.storage.push(value);
        ArenaRef { index, brand: self.brand }
    }

    fn read(&self, r: &ArenaRef<'id>) -> (t: T)
        where T: Duplicate,
    {
        self.storage[r.index].duplicate()
    }

    fn with_ref<U, F: FnOnce(&T) -> U>(&self, reference: &ArenaRef<'id>, f: F) -> (u: U)
        where T: Duplicate,
    {
        f(&self.storage[reference.index])
    }
}

impl<'id, T> RefStoreMut<T, ArenaRef<'id>> for Arena<'id, T> {
    fn set_ref(&mut self, reference: &ArenaRef<'id>, value: T) {
        proof {
            assert forall|q: ArenaRef<'id>| q != *reference implies q.index != reference.index by {
                if q.index == reference.index {
                    assert(q.brand == reference.brand);
                }
            }
        }
        self.storage.set(reference.index, value);
    }

    fn replace_ref(&mut self, reference: &ArenaRef<'id>, value: T) -> (previous: T) {
        proof {
            assert forall|q: ArenaRef<'id>| q != *reference implies q.index != reference.index by {
                if q.index == reference.index {
                    assert(q.brand == reference.brand);
                }
            }
        }
        let mut previous = value;
        std::mem::swap(&mut self.storage[reference.index], &mut previous);
        previous
    }
}

impl<'id, T, const N: usize> RefStore<T, ArenaRef<'id>> for ConstArena<'id, T, N> {
    open spec fn spec_contains(&self, r: ArenaRef<'id>) -> bool {
        r.spec_index() < self.spec_values().len()
    }

    open spec fn spec_get(&self, r: ArenaRef<'id>) -> T {
        self.spec_values()[r.spec_index() as int]
    }

    open spec fn spec_bounded(&self) -> bool {
        true
    }

    open spec fn spec_room(&self) -> nat {
        if self.spec_values().len() <= N { (N - self.spec_values().len()) as nat } else { 0 }
    }

    open spec fn spec_fresh_refs(&self) -> bool {
        true
    }

    /// The new value goes at the end: its reference has the next index.
    fn allocate(&mut self, value: T) -> (r: ArenaRef<'id>)
        ensures
            r.spec_index() == old(self).spec_values().len(),
            final(self).spec_values() == old(self).spec_values().push(value),
    {
        let index = self.storage.len();
        self.storage.push(value);
        ArenaRef { index, brand: self.brand }
    }

    fn read(&self, r: &ArenaRef<'id>) -> (t: T)
        where T: Duplicate,
    {
        self.storage[r.index].duplicate()
    }

    fn with_ref<U, F: FnOnce(&T) -> U>(&self, reference: &ArenaRef<'id>, f: F) -> (u: U)
        where T: Duplicate,
    {
        f(&self.storage[reference.index])
    }
}

impl<'id, T, const N: usize> RefStoreMut<T, ArenaRef<'id>> for ConstArena<'id, T, N> {
    fn set_ref(&mut self, reference: &ArenaRef<'id>, value: T) {
        proof {
            assert forall|q: ArenaRef<'id>| q != *reference implies q.index != reference.index by {
                if q.index == reference.index {
                    assert(q.brand == reference.brand);
                }
            }
        }
        self.storage.set(reference.index, value);
    }

    fn replace_ref(&mut self, reference: &ArenaRef<'id>, value: T) -> (previous: T) {
        proof {
            assert forall|q: ArenaRef<'id>| q != *reference implies q.index != reference.index by {
                if q.index == reference.index {
                    assert(q.brand == reference.brand);
                }
            }
        }
        let mut previous = value;
        std::mem::swap(&mut self.storage[reference.index], &mut previous);
        previous
    }
}

} // verus!
