use super::{refs_map_from, Chunk, FingerTree, get_node, get_tree, has_node, has_tree, refs_extend, unbounded, FingerTreeRefs, Measured, Node, Tree};
use crate::data_structure::ref_store::{
    ArcStoreFactory, ArenaRef, ArenaStoreFactory, ConstArenaStoreFactory, Duplicate, LayeredArenaStoreFactory,
    LayeredRef, RcStoreFactory, RefMapper, RefStore, RefStoreFactory, StoreRef,
};
use std::marker::PhantomData;
use vstd::prelude::*;

verus! {

/// A factory whose stores can hold the nodes and the tree levels of finger trees of `A`.
pub trait FingerTreeStoreFactory<A: Measured>: StoreRef + RefStoreFactory<Node<A, <Self as StoreRef>::Ref>> + RefStoreFactory<
    Tree<A, <Self as StoreRef>::Ref>,
> {

}

impl<A: Measured> FingerTreeStoreFactory<A> for RcStoreFactory {

}

impl<A: Measured> FingerTreeStoreFactory<A> for ArcStoreFactory {

}

impl<'id, A: Measured> FingerTreeStoreFactory<A> for ArenaStoreFactory<'id> {

}

impl<'id, A: Measured, const N: usize> FingerTreeStoreFactory<A> for ConstArenaStoreFactory<'id, N> {

}

/// The store of a finger tree's nodes and tree levels, both made by one factory.
pub struct FingerTreeStore<A: Measured, F: FingerTreeStoreFactory<A>> {
    nodes: <F as RefStoreFactory<Node<A, <F as StoreRef>::Ref>>>::Store,
    trees: <F as RefStoreFactory<Tree<A, <F as StoreRef>::Ref>>>::Store,
}

impl<A: Measured, Fa: FingerTreeStoreFactory<A>> FingerTreeStore<A, Fa> {
    /// A store with the factory's fresh stores.
    pub fn new(factory: Fa) -> (r: Self)
        ensures
            <Fa as RefStoreFactory<Node<A, <Fa as StoreRef>::Ref>>>::spec_unbounded_stores(&factory)
                && <Fa as RefStoreFactory<Tree<A, <Fa as StoreRef>::Ref>>>::spec_unbounded_stores(&factory) ==> unbounded::<
                A,
                <Fa as StoreRef>::Ref,
                Self,
            >(r),
            RefStore::<Node<A, <Fa as StoreRef>::Ref>, <Fa as StoreRef>::Ref>::spec_bounded(&r)
                ==> RefStore::<Node<A, <Fa as StoreRef>::Ref>, <Fa as StoreRef>::Ref>::spec_room(&r)
                == <Fa as RefStoreFactory<Node<A, <Fa as StoreRef>::Ref>>>::spec_store_room(&factory),
            RefStore::<Tree<A, <Fa as StoreRef>::Ref>, <Fa as StoreRef>::Ref>::spec_bounded(&r)
                ==> RefStore::<Tree<A, <Fa as StoreRef>::Ref>, <Fa as StoreRef>::Ref>::spec_room(&r)
                == <Fa as RefStoreFactory<Tree<A, <Fa as StoreRef>::Ref>>>::spec_store_room(&factory),
    {
        FingerTreeStore {
            nodes: <Fa as RefStoreFactory<Node<A, <Fa as StoreRef>::Ref>>>::store(&factory),
            trees: <Fa as RefStoreFactory<Tree<A, <Fa as StoreRef>::Ref>>>::store(&factory),
        }
    }
}

impl<A: Measured> Default for FingerTreeStore<A, RcStoreFactory> {
    fn default() -> (r: Self)
        ensures
            unbounded::<A, <RcStoreFactory as StoreRef>::Ref, Self>(r),
    {
        FingerTreeStore::new(RcStoreFactory)
    }
}

impl<A: Measured, Fa: FingerTreeStoreFactory<A>> RefStore<Node<A, <Fa as StoreRef>::Ref>, <Fa as StoreRef>::Ref> for FingerTreeStore<A, Fa> {
    closed spec fn spec_contains(&self, r: <Fa as StoreRef>::Ref) -> bool {
        self.nodes.spec_contains(r)
    }

    closed spec fn spec_get(&self, r: <Fa as StoreRef>::Ref) -> Node<A, <Fa as StoreRef>::Ref> {
        self.nodes.spec_get(r)
    }

    closed spec fn spec_bounded(&self) -> bool {
        self.nodes.spec_bounded()
    }

    closed spec fn spec_room(&self) -> nat {
        self.nodes.spec_room()
    }

    closed spec fn spec_fresh_refs(&self) -> bool {
        self.nodes.spec_fresh_refs()
    }

    fn allocate(&mut self, value: Node<A, <Fa as StoreRef>::Ref>) -> (r: <Fa as StoreRef>::Ref) {
        self.nodes.allocate(value)
    }

    fn read(&self, r: &<Fa as StoreRef>::Ref) -> (t: Node<A, <Fa as StoreRef>::Ref>)
        where Node<A, <Fa as StoreRef>::Ref>: Duplicate,
    {
        self.nodes.read(r)
    }

    fn with_ref<U, F: FnOnce(&Node<A, <Fa as StoreRef>::Ref>) -> U>(&self, reference: &<Fa as StoreRef>::Ref, f: F) -> (u: U)
        where Node<A, <Fa as StoreRef>::Ref>: Duplicate,
    {
        self.nodes.with_ref(reference, f)
    }
}

impl<A: Measured, Fa: FingerTreeStoreFactory<A>> RefStore<Tree<A, <Fa as StoreRef>::Ref>, <Fa as StoreRef>::Ref> for FingerTreeStore<A, Fa> {
    closed spec fn spec_contains(&self, r: <Fa as StoreRef>::Ref) -> bool {
        self.trees.spec_contains(r)
    }

    closed spec fn spec_get(&self, r: <Fa as StoreRef>::Ref) -> Tree<A, <Fa as StoreRef>::Ref> {
        self.trees.spec_get(r)
    }

    closed spec fn spec_bounded(&self) -> bool {
        self.trees.spec_bounded()
    }

    closed spec fn spec_room(&self) -> nat {
        self.trees.spec_room()
    }

    closed spec fn spec_fresh_refs(&self) -> bool {
        self.trees.spec_fresh_refs()
    }

    fn allocate(&mut self, value: Tree<A, <Fa as StoreRef>::Ref>) -> (r: <Fa as StoreRef>::Ref) {
        self.trees.allocate(value)
    }

    fn read(&self, r: &<Fa as StoreRef>::Ref) -> (t: Tree<A, <Fa as StoreRef>::Ref>)
        where Tree<A, <Fa as StoreRef>::Ref>: Duplicate,
    {
        self.trees.read(r)
    }

    fn with_ref<U, F: FnOnce(&Tree<A, <Fa as StoreRef>::Ref>) -> U>(&self, reference: &<Fa as StoreRef>::Ref, f: F) -> (u: U)
        where Tree<A, <Fa as StoreRef>::Ref>: Duplicate,
    {
        self.trees.with_ref(reference, f)
    }
}

impl<A: Measured, Fa: FingerTreeStoreFactory<A>> FingerTreeRefs<A, <Fa as StoreRef>::Ref> for FingerTreeStore<A, Fa> {
    fn alloc_node(&mut self, node: Node<A, <Fa as StoreRef>::Ref>) -> (r: <Fa as StoreRef>::Ref) {
        self.nodes.allocate(node)
    }

    fn alloc_tree(&mut self, tree: Tree<A, <Fa as StoreRef>::Ref>) -> (r: <Fa as StoreRef>::Ref) {
        self.trees.allocate(tree)
    }
}

impl<A: Measured, Fa: FingerTreeStoreFactory<A>> StoreRef for FingerTreeStore<A, Fa> {
    type Ref = <Fa as StoreRef>::Ref;
}

/// Turns nodes and tree levels of a base arena into those of a layered store over it.
pub struct FingerTreeLayerMapper<'store, 'base, 'scratch, A: Measured> {
    marker: PhantomData<(&'store (), &'base mut &'base (), &'scratch mut &'scratch (), A)>,
}

/// The reference of a base value, as seen from a layered store.
pub open spec fn base_ref<'base, 'scratch>(r: ArenaRef<'base>) -> LayeredRef<ArenaRef<'base>, ArenaRef<'scratch>> {
    LayeredRef::Base(r)
}

fn to_base_ref<'base, 'scratch>(r: &ArenaRef<'base>) -> (o: LayeredRef<ArenaRef<'base>, ArenaRef<'scratch>>)
    ensures
        o == base_ref(*r),
{
    LayeredRef::Base(*r)
}

impl<'store, 'base, 'scratch, A: Measured> RefMapper<Node<A, LayeredRef<ArenaRef<'base>, ArenaRef<'scratch>>>> for FingerTreeLayerMapper<
    'store,
    'base,
    'scratch,
    A,
> {
    type Source = Node<A, ArenaRef<'base>>;

    open spec fn spec_map_ref(value: Node<A, ArenaRef<'base>>) -> Node<A, LayeredRef<ArenaRef<'base>, ArenaRef<'scratch>>> {
        value.spec_map_refs(|r: ArenaRef<'base>| base_ref(r))
    }

    fn map_ref(value: &Node<A, ArenaRef<'base>>) -> (r: Node<A, LayeredRef<ArenaRef<'base>, ArenaRef<'scratch>>>) {
        value.map_refs(&to_base_ref, Ghost(|r: ArenaRef<'base>| base_ref(r)))
    }
}

impl<'store, 'base, 'scratch, A: Measured> RefMapper<Tree<A, LayeredRef<ArenaRef<'base>, ArenaRef<'scratch>>>> for FingerTreeLayerMapper<
    'store,
    'base,
    'scratch,
    A,
> {
    type Source = Tree<A, ArenaRef<'base>>;

    open spec fn spec_map_ref(value: Tree<A, ArenaRef<'base>>) -> Tree<A, LayeredRef<ArenaRef<'base>, ArenaRef<'scratch>>> {
        value.spec_map_refs(|r: ArenaRef<'base>| base_ref(r))
    }

    fn map_ref(value: &Tree<A, ArenaRef<'base>>) -> (r: Tree<A, LayeredRef<ArenaRef<'base>, ArenaRef<'scratch>>>) {
        value.map_refs(&to_base_ref, Ghost(|r: ArenaRef<'base>| base_ref(r)))
    }
}

/// The factory of layered stores over a base arena of finger tree nodes.
pub type LayeredArenaFingerTreeFactory<'store, 'base, 'scratch, A> = LayeredArenaStoreFactory<
    'store,
    'scratch,
    FingerTreeStore<A, ArenaStoreFactory<'base>>,
    FingerTreeLayerMapper<'store, 'base, 'scratch, A>,
>;

/// A store that reads a base arena of finger tree nodes and allocates in a scratch arena.
pub type LayeredArenaFingerTreeStore<'store, 'base, 'scratch, A> = FingerTreeStore<A, LayeredArenaFingerTreeFactory<'store, 'base, 'scratch, A>>;

impl<'store, 'base, 'scratch, A: Measured> FingerTreeStoreFactory<A> for LayeredArenaFingerTreeFactory<'store, 'base, 'scratch, A> {

}

impl<'base, A: Measured> FingerTreeStore<A, ArenaStoreFactory<'base>> {
    /// Runs `f` with a layered store that reads this store and allocates in a scratch arena
    /// of `capacity` initial slots.
    pub fn layered<'store, T, G>(&'store self, capacity: usize, f: G) -> (r: T)
        where G: for<'scratch> FnOnce(LayeredArenaFingerTreeStore<'store, 'base, 'scratch, A>) -> T,
        requires
            forall|s: LayeredArenaFingerTreeStore<'store, 'base, '_, A>| #[trigger] s.spec_layered_over(self) ==> f.requires((s,)),
        ensures
            exists|s: LayeredArenaFingerTreeStore<'store, 'base, '_, A>| #[trigger] s.spec_layered_over(self) && f.ensures((s,), r),
    {
        let factory = LayeredArenaStoreFactory::new(self, capacity);
        let store = FingerTreeStore { nodes: factory.store_with_capacity(capacity), trees: factory.store_with_capacity(capacity / 4 + 1) };
        assert(store.spec_layered_over(self));
        f(store)
    }
}

impl<'store, 'base, 'scratch, A: Measured> LayeredArenaFingerTreeStore<'store, 'base, 'scratch, A> {
    /// This store reads `base` and has allocated nothing of its own yet.
    pub closed spec fn spec_layered_over(&self, base: &FingerTreeStore<A, ArenaStoreFactory<'base>>) -> bool {
        &&& self.nodes.spec_base() == base
        &&& self.trees.spec_base() == base
        &&& forall|q: ArenaRef<'scratch>| !self.nodes.spec_scratch().spec_contains(q)
        &&& forall|q: ArenaRef<'scratch>| !self.trees.spec_scratch().spec_contains(q)
        &&& !self.nodes.spec_scratch().spec_bounded()
        &&& !self.trees.spec_scratch().spec_bounded()
        &&& self.nodes.spec_scratch().spec_fresh_refs()
        &&& self.trees.spec_scratch().spec_fresh_refs()
    }

    /// The base store.
    pub closed spec fn spec_base(&self) -> &'store FingerTreeStore<A, ArenaStoreFactory<'base>> {
        self.nodes.spec_base()
    }

    /// The node store and the tree store read the same base store.
    pub closed spec fn spec_same_base(&self) -> bool {
        self.nodes.spec_base() == self.trees.spec_base()
    }

    /// A store fresh from `layered` reads `base` and takes any number of values.
    pub proof fn lemma_layered_over(&self, base: &FingerTreeStore<A, ArenaStoreFactory<'base>>)
        requires
            self.spec_layered_over(base),
        ensures
            unbounded::<A, LayeredRef<ArenaRef<'base>, ArenaRef<'scratch>>, Self>(*self),
            self.spec_same_base(),
            self.spec_base() == base,
    {
        self.nodes.lemma_layers::<Node<A, LayeredRef<ArenaRef<'base>, ArenaRef<'scratch>>>, ArenaRef<'base>, ArenaRef<'scratch>>();
        self.trees.lemma_layers::<Tree<A, LayeredRef<ArenaRef<'base>, ArenaRef<'scratch>>>, ArenaRef<'base>, ArenaRef<'scratch>>();
    }

    /// Every base node and tree level is found here behind its base reference.
    pub proof fn lemma_maps_base(&self)
        requires
            self.spec_same_base(),
        ensures
            refs_map_from::<A, ArenaRef<'base>, LayeredRef<ArenaRef<'base>, ArenaRef<'scratch>>, FingerTreeStore<A, ArenaStoreFactory<'base>>, Self>(
                *self,
                *self.spec_base(),
                |r: ArenaRef<'base>| base_ref(r),
            ),
    {
        self.nodes.lemma_layers::<Node<A, LayeredRef<ArenaRef<'base>, ArenaRef<'scratch>>>, ArenaRef<'base>, ArenaRef<'scratch>>();
        self.trees.lemma_layers::<Tree<A, LayeredRef<ArenaRef<'base>, ArenaRef<'scratch>>>, ArenaRef<'base>, ArenaRef<'scratch>>();
    }
}

impl<'store, 'base, 'scratch, A: Measured, const N: usize> LayeredArenaFingerTreeStore<'store, 'base, 'scratch, Chunk<A, N>> {
    /// The tree of the base store, as a tree of this store.
    pub fn from_base(&self, tree: &FingerTree<A, N, ArenaRef<'base>>) -> (r: FingerTree<A, N, LayeredRef<ArenaRef<'base>, ArenaRef<'scratch>>>)
        requires
            self.spec_same_base(),
            tree.wf_in(*self.spec_base()),
        ensures
            r.wf_in(*self),
            r.view_in(*self) == tree.view_in(*self.spec_base()),
    {
        let r = tree.map_refs(&to_base_ref, Ghost(|r: ArenaRef<'base>| base_ref(r)));
        proof {
            self.lemma_maps_base();
            tree.lemma_map_refs(*self.spec_base(), *self, |r: ArenaRef<'base>| base_ref(r));
        }
        r
    }
}

} // verus!
