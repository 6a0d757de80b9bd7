//! Append-only tables that hand out dense ids.

use vstd::prelude::*;

use std::marker::PhantomData;

use super::binding_resolved::{BindingId, ResolvedBinding, TypeBindingId};

verus! {

/// An id that names a position in an arena.
pub trait ArenaId: Sized {
    spec fn spec_index(self) -> nat;

    fn from_index(index: usize) -> (id: Self)
        ensures
            id.spec_index() == index,
    ;
}

impl ArenaId for BindingId {
    open spec fn spec_index(self) -> nat {
        self.0 as nat
    }

    fn from_index(index: usize) -> (id: Self) {
        BindingId(index)
    }
}

impl ArenaId for TypeBindingId {
    open spec fn spec_index(self) -> nat {
        self.0 as nat
    }

    fn from_index(index: usize) -> (id: Self) {
        TypeBindingId(index)
    }
}

pub struct GenericArena<TItem, TArenaId> {
    entries: Vec<TItem>,
    marker: PhantomData<TArenaId>,
}

impl<TItem, TArenaId: ArenaId> GenericArena<TItem, TArenaId> {
    pub closed spec fn items(&self) -> Seq<TItem> {
        self.entries@
    }

    pub fn new() -> (arena: GenericArena<TItem, TArenaId>)
        ensures
            arena.items() == Seq::<TItem>::empty(),
    {
        GenericArena { entries: Vec::new(), marker: PhantomData }
    }

    /// Stores `item` and returns the id of its slot: the next one.
    pub fn extend(&mut self, item: TItem) -> (id: TArenaId)
        ensures
            id.spec_index() == old(self).items().len(),
            final(self).items() == old(self).items().push(item),
    {
        let new_id = TArenaId::from_index(self.entries.len());
        self.entries.push(item);
        new_id
    }

    pub fn len(&self) -> (len: usize)
        ensures
            len == self.items().len(),
    {
        self.entries.len()
    }

    pub fn into_vec(self) -> (items: Vec<TItem>)
        ensures
            items@ == self.items(),
    {
        self.entries
    }
}

/// Ids are the positions of their items: over a run of `extend` calls starting from an empty
/// arena, the `i`th call hands out id `i`, ids are never reused, and the arena's items are
/// the extended items in order, so the item at an id's index is the item it was handed out for.
/// `arenas[i]` is the arena before the `i`th call and `arenas[i + 1]` the arena after it, as
/// [`GenericArena::extend`] states.
pub proof fn lemma_ids_index_items<TItem, TArenaId: ArenaId>(
    arenas: Seq<GenericArena<TItem, TArenaId>>,
    ids: Seq<TArenaId>,
    items: Seq<TItem>,
)
    requires
        arenas.len() == items.len() + 1,
        ids.len() == items.len(),
        arenas[0].items() == Seq::<TItem>::empty(),
        forall|i: int|
            0 <= i < items.len() ==> (#[trigger] ids[i]).spec_index() == arenas[i].items().len()
                && arenas[i + 1].items() == arenas[i].items().push(items[i]),
    ensures
        arenas.last().items() == items,
        forall|i: int| 0 <= i < items.len() ==> (#[trigger] ids[i]).spec_index() == i,
        forall|i: int|
            0 <= i < items.len() ==> arenas.last().items()[(#[trigger] ids[i]).spec_index() as int]
                == items[i],
    decreases items.len(),
{
    if items.len() > 0 {
        let n = items.len() - 1;
        assert forall|i: int| 0 <= i < n implies (#[trigger] ids.take(n)[i]).spec_index()
            == arenas.take(n + 1)[i].items().len() && arenas.take(n + 1)[i + 1].items()
            == arenas.take(n + 1)[i].items().push(items.take(n)[i]) by {
            assert(ids.take(n)[i] == ids[i]);
            assert(arenas.take(n + 1)[i] == arenas[i]);
            assert(arenas.take(n + 1)[i + 1] == arenas[i + 1]);
            assert(items.take(n)[i] == items[i]);
        }
        lemma_ids_index_items(arenas.take(n + 1), ids.take(n), items.take(n));
        assert(arenas.take(n + 1).last() == arenas[n]);
        assert(arenas[n].items() =~= items.take(n));
        assert(ids[n as int].spec_index() == arenas[n as int].items().len());
        assert(arenas[n + 1].items() == arenas[n].items().push(items[n]));
        assert(arenas.last().items() =~= items);
        assert forall|i: int| 0 <= i < items.len() implies (#[trigger] ids[i]).spec_index() == i by {
            if i < n {
                assert(ids.take(n)[i] == ids[i]);
            }
        }
    }
}

pub type VariableBindingArena = GenericArena<ResolvedBinding, BindingId>;

pub type TypeBindingArena = GenericArena<ResolvedBinding, TypeBindingId>;

} // verus!
