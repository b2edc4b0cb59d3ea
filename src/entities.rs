//! The world: a generational slot table of entities, each with its component mask,
//! and the registry of component columns.
use vstd::prelude::*;

use crate::arena::{
    arena_clone, arena_entries, arena_generation, arena_get, arena_get_unknown_gen, arena_insert, arena_new,
    arena_remove, arena_set, arena_slots,
};
use crate::components::{lemma_slot_of_push, ComponentKind, Components, EcsError};
use crate::mask::{bit, has_bit, lemma_and_not, lemma_bit_single, lemma_bit_test, lemma_or, ComponentsMask};
use generational_arena::Arena;

verus! {

/// Identity of an entity: its slot in the slot table and the generation it was spawned under.
#[derive(Debug, Clone, Copy, PartialEq, Eq, Hash, Structural)]
pub struct EntityId {
    pub index: usize,
    pub generation: u64,
}

impl EntityId {
    /// The slot index, which also keys the entity's values in every column.
    pub fn spatial(&self) -> (r: usize)
        ensures
            r == self.index,
    {
        self.index
    }
}

/// The persisted form of an entity: its bare slot index, without generation.
#[derive(Debug, Clone, Copy, PartialEq, Eq, Hash, Structural)]
pub struct AliveEntityId(pub usize);

impl From<EntityId> for AliveEntityId {
    fn from(id: EntityId) -> (r: Self) {
        AliveEntityId(id.index)
    }
}

impl vstd::std_specs::convert::FromSpecImpl<EntityId> for AliveEntityId {
    open spec fn obeys_from_spec() -> bool {
        true
    }

    open spec fn from_spec(id: EntityId) -> Self {
        AliveEntityId(id.index)
    }
}

impl AliveEntityId {
    /// The id of the entity that lives in this slot now, if one does.
    pub fn validate<C>(&self, entities: &Entities<C>) -> (r: Option<EntityId>)
        ensures
            r == (if entities.slots().contains_key(self.0) {
                Some(EntityId { index: self.0, generation: entities.slots()[self.0].0 })
            } else {
                None::<EntityId>
            }),
    {
        match arena_get_unknown_gen(&entities.entity_masks, self.0) {
            Some((generation, _)) => Some(EntityId { index: self.0, generation }),
            None => None,
        }
    }
}

/// The store: live entities with their masks, and one column per component kind.
pub struct Entities<C> {
    entity_masks: Arena<ComponentsMask>,
    components: Components<C>,
    generation: u64,
}

impl<C> Entities<C> {
    /// Live slots: slot index to (generation, component mask).
    pub closed spec fn slots(&self) -> Map<usize, (u64, u64)> {
        arena_slots(self.entity_masks)
    }

    pub closed spec fn registry(&self) -> Components<C> {
        self.components
    }

    /// The generation that the next spawned entity receives.
    pub closed spec fn current_generation(&self) -> u64 {
        arena_generation(self.entity_masks)
    }

    /// The copy of the generation counter that the store keeps beside the arena.
    pub closed spec fn counter(&self) -> u64 {
        self.generation
    }

    pub open spec fn is_live(&self, id: EntityId) -> bool {
        self.slots().contains_key(id.index) && self.slots()[id.index].0 == id.generation
    }

    /// Whether the column in registry slot `b` holds a value for entity slot `s`.
    pub open spec fn column_holds(&self, b: u64, s: usize) -> bool {
        b < self.registry().kinds().len() && self.registry().columns()[b as int]@.contains_key(s)
    }

    /// Whether live entity `id` holds a value of `kind`.
    pub open spec fn has_value(&self, id: EntityId, kind: ComponentKind) -> bool {
        self.is_live(id) && self.registry().column_of(kind).contains_key(id.index)
    }

    pub open spec fn wf(&self) -> bool {
        &&& self.registry().wf()
        &&& self.counter() == self.current_generation()
        &&& forall|s: usize| #[trigger] self.slots().contains_key(s) ==> self.slots()[s].0 <= self.current_generation()
        &&& forall|s: usize, b: u64|
            #![trigger has_bit(self.slots()[s].1, b)]
            #![trigger self.column_holds(b, s)]
            self.slots().contains_key(s) ==> (has_bit(self.slots()[s].1, b) <==> self.column_holds(b, s))
        &&& forall|i: int, s: usize|
            0 <= i < self.registry().columns().len() && #[trigger] self.registry().columns()[i]@.contains_key(s)
                ==> self.slots().contains_key(s)
    }

    /// An empty store: no entities, no registered kinds.
    pub fn new() -> (r: Self)
        ensures
            r.wf(),
            r.slots() == Map::<usize, (u64, u64)>::empty(),
            r.registry().kinds() == Seq::<ComponentKind>::empty(),
            r.current_generation() == 0,
    {
        let r = Entities { entity_masks: arena_new(), components: Components::new(), generation: 0 };
        assert(r.slots() =~= Map::<usize, (u64, u64)>::empty());
        r
    }

    /// The generation that the next spawned entity receives.
    pub fn generation(&self) -> (r: u64)
        requires
            self.wf(),
        ensures
            r == self.current_generation(),
    {
        self.generation
    }

    /// Creates an entity with no components.
    pub fn spawn(&mut self) -> (r: EntityId)
        requires
            old(self).wf(),
        ensures
            final(self).wf(),
            !old(self).slots().contains_key(r.index),
            r.generation == old(self).current_generation(),
            final(self).slots() == old(self).slots().insert(r.index, (r.generation, 0u64)),
            final(self).registry() == old(self).registry(),
            final(self).current_generation() == old(self).current_generation(),
            final(self).is_live(r),
            forall|x: EntityId| #[trigger] old(self).is_live(x) ==> final(self).is_live(x) && x.index != r.index,
    {
        let ghost pre = *self;
        let (index, generation) = arena_insert(&mut self.entity_masks, 0);
        proof {
            assert forall|s: usize, b: u64| self.slots().contains_key(s) implies (has_bit(self.slots()[s].1, b) <==> self.column_holds(b, s)) by {
                if s == index {
                    crate::mask::lemma_zero(b);
                    if self.column_holds(b, s) {
                        assert(pre.registry().columns()[b as int]@.contains_key(s));
                    }
                } else {
                    assert(pre.slots().contains_key(s));
                    assert(has_bit(pre.slots()[s].1, b) <==> pre.column_holds(b, s));
                }
            }
            assert forall|i: int, s: usize|
                0 <= i < self.registry().columns().len() && #[trigger] self.registry().columns()[i]@.contains_key(s)
                implies self.slots().contains_key(s) by {
                assert(pre.registry().columns()[i]@.contains_key(s));
            }
            assert forall|s: usize| #[trigger] self.slots().contains_key(s) implies self.slots()[s].0 <= self.current_generation() by {
                if s != index {
                    assert(pre.slots().contains_key(s));
                }
            }
        }
        EntityId { index, generation }
    }

    /// Whether `id` names a live entity.
    pub fn is_present(&self, id: EntityId) -> (r: bool)
        ensures
            r == self.is_live(id),
    {
        arena_get(&self.entity_masks, id.index, id.generation).is_some()
    }

    /// Whether live entity `id` holds a value of `kind`.
    pub fn has(&self, id: EntityId, kind: ComponentKind) -> (r: bool)
        requires
            self.wf(),
        ensures
            r == self.has_value(id, kind),
    {
        match arena_get(&self.entity_masks, id.index, id.generation) {
            Some(mask) => {
                let kind_mask = self.components.mask_of(kind);
                proof {
                    if self.registry().registered(kind) {
                        self.registry().lemma_slot(kind);
                        lemma_bit_test(mask, self.registry().slot(kind) as u64);
                        assert(has_bit(mask, self.registry().slot(kind) as u64) == self.column_holds(self.registry().slot(kind) as u64, id.index));
                    } else {
                        assert(kind_mask & mask == 0) by (bit_vector)
                            requires kind_mask == 0;
                    }
                    assert((kind_mask & mask != 0) == (mask & kind_mask != 0)) by (bit_vector);
                }
                kind_mask & mask != 0
            },
            None => false,
        }
    }

    /// The value of `kind` held by live entity `id`.
    pub fn get(&self, id: EntityId, kind: ComponentKind) -> (r: Option<&C>)
        requires
            self.wf(),
        ensures
            r == (if self.has_value(id, kind) {
                Some(&self.registry().column_of(kind)[id.index])
            } else {
                None::<&C>
            }),
    {
        if self.has(id, kind) {
            self.components.borrow_storage_of(kind).get(id.index)
        } else {
            None
        }
    }

    /// Removes a live entity and all its component values; a stale `id` changes nothing.
    ///
    /// The slot may be reused by a later spawn, under a higher generation.
    pub fn despawn(&mut self, id: EntityId) -> (r: bool)
        requires
            old(self).wf(),
            old(self).current_generation() < u64::MAX,
        ensures
            final(self).wf(),
            r == old(self).is_live(id),
            final(self).registry().kinds() == old(self).registry().kinds(),
            r ==> {
                &&& !final(self).is_live(id)
                &&& id.generation < final(self).current_generation()
                &&& final(self).slots() == old(self).slots().remove(id.index)
                &&& final(self).current_generation() == old(self).current_generation() + 1
                &&& final(self).registry().columns().len() == old(self).registry().columns().len()
                &&& forall|i: int|
                    0 <= i < old(self).registry().columns().len() ==> #[trigger] final(self).registry().columns()[i]@
                        == old(self).registry().columns()[i]@.remove(id.index)
            },
            !r ==> {
                &&& final(self).slots() == old(self).slots()
                &&& final(self).current_generation() == old(self).current_generation()
                &&& final(self).registry() == old(self).registry()
            },
    {
        let ghost pre = *self;
        match arena_remove(&mut self.entity_masks, id.index, id.generation) {
            Some(mask) => {
                self.generation = self.generation + 1;
                proof {
                    assert forall|b: u64| #[trigger] has_bit(mask, b) implies b < pre.registry().kinds().len() by {
                        assert(has_bit(pre.slots()[id.index].1, b) <==> pre.column_holds(b, id.index));
                    }
                }
                self.components.remove_all(mask, id.index);
                proof {
                    assert forall|i: int|
                        0 <= i < pre.registry().columns().len() implies #[trigger] self.registry().columns()[i]@
                            == pre.registry().columns()[i]@.remove(id.index) by {
                        assert(has_bit(pre.slots()[id.index].1, i as u64) <==> pre.column_holds(i as u64, id.index));
                        if !has_bit(mask, i as u64) {
                            assert(pre.registry().columns()[i]@.remove(id.index) =~= pre.registry().columns()[i]@);
                        }
                    }
                    assert forall|s: usize, b: u64| self.slots().contains_key(s) implies (has_bit(self.slots()[s].1, b) <==> self.column_holds(b, s)) by {
                        assert(pre.slots().contains_key(s));
                        assert(has_bit(pre.slots()[s].1, b) <==> pre.column_holds(b, s));
                        if b < pre.registry().kinds().len() {
                            assert(self.registry().columns()[b as int]@ == pre.registry().columns()[b as int]@.remove(id.index));
                        }
                    }
                    assert forall|i: int, s: usize|
                        0 <= i < self.registry().columns().len() && #[trigger] self.registry().columns()[i]@.contains_key(s)
                        implies self.slots().contains_key(s) by {
                        assert(self.registry().columns()[i]@ == pre.registry().columns()[i]@.remove(id.index));
                        assert(pre.registry().columns()[i]@.contains_key(s));
                    }
                    assert forall|s: usize| #[trigger] self.slots().contains_key(s) implies self.slots()[s].0 <= self.current_generation() by {
                        assert(pre.slots().contains_key(s));
                    }
                }
                true
            },
            None => {
                proof {
                    assert forall|s: usize, b: u64| self.slots().contains_key(s) implies (has_bit(self.slots()[s].1, b) <==> self.column_holds(b, s)) by {
                        assert(has_bit(pre.slots()[s].1, b) <==> pre.column_holds(b, s));
                    }
                    assert forall|i: int, s: usize|
                        0 <= i < self.registry().columns().len() && #[trigger] self.registry().columns()[i]@.contains_key(s)
                        implies self.slots().contains_key(s) by {
                        assert(pre.registry().columns()[i]@.contains_key(s));
                    }
                    assert forall|s: usize| #[trigger] self.slots().contains_key(s) implies self.slots()[s].0 <= self.current_generation() by {
                        assert(pre.slots().contains_key(s));
                    }
                }
                false
            },
        }
    }

    proof fn lemma_register_keeps_wf(pre: Self, post: Self, kind: ComponentKind)
        requires
            pre.wf(),
            post.registry().wf(),
            post.slots() == pre.slots(),
            post.counter() == pre.counter(),
            post.current_generation() == pre.current_generation(),
            post.registry().kinds() == pre.registry().kinds().push(kind),
            post.registry().columns().drop_last() == pre.registry().columns(),
            post.registry().columns().len() == pre.registry().columns().len() + 1,
            post.registry().columns().last()@ == Map::<usize, C>::empty(),
        ensures
            post.wf(),
    {
        let n = pre.registry().columns().len();
        assert forall|i: int| 0 <= i < n implies post.registry().columns()[i] == pre.registry().columns()[i] by {
            assert(post.registry().columns().drop_last()[i] == post.registry().columns()[i]);
        }
        assert forall|s: usize, b: u64| post.slots().contains_key(s) implies (has_bit(post.slots()[s].1, b) <==> post.column_holds(b, s)) by {
            assert(has_bit(pre.slots()[s].1, b) <==> pre.column_holds(b, s));
            if (b as int) < n {
                assert(post.registry().columns()[b as int] == pre.registry().columns()[b as int]);
            }
        }
        assert forall|i: int, s: usize|
            0 <= i < post.registry().columns().len() && #[trigger] post.registry().columns()[i]@.contains_key(s)
            implies post.slots().contains_key(s) by {
            if i < n {
                assert(pre.registry().columns()[i]@.contains_key(s));
            }
        }
    }

    /// Gives live entity `id` the value `value` of `kind`, registering `kind` first if it
    /// is new; a value already there is overwritten.
    pub fn set(&mut self, id: EntityId, kind: ComponentKind, value: C) -> (r: Result<(), EcsError>)
        requires
            old(self).wf(),
        ensures
            final(self).wf(),
            !old(self).is_live(id) ==> r == Err::<(), EcsError>(EcsError::Stale),
            old(self).is_live(id) && !old(self).registry().registered(kind) && old(self).registry().kinds().len() == 64
                ==> r == Err::<(), EcsError>(EcsError::CapacityExceeded),
            r.is_err() ==> {
                &&& final(self).slots() == old(self).slots()
                &&& final(self).registry() == old(self).registry()
            },
            old(self).is_live(id) && (old(self).registry().registered(kind) || old(self).registry().kinds().len() < 64) ==> r == Ok::<(), EcsError>(()),
            r.is_ok() ==> {
                &&& final(self).registry().kinds() == if old(self).registry().registered(kind) {
                    old(self).registry().kinds()
                } else {
                    old(self).registry().kinds().push(kind)
                }
                &&& final(self).registry().column_of(kind) == old(self).registry().column_of(kind).insert(id.index, value)
                &&& forall|k: ComponentKind| k != kind ==> #[trigger] final(self).registry().column_of(k) == old(self).registry().column_of(k)
                &&& final(self).slots() == old(self).slots().insert(
                    id.index,
                    (id.generation, old(self).slots()[id.index].1 | bit(final(self).registry().slot(kind) as u64)),
                )
            },
            final(self).current_generation() == old(self).current_generation(),
    {
        let mask = match arena_get(&self.entity_masks, id.index, id.generation) {
            Some(m) => m,
            None => {
                return Err(EcsError::Stale);
            },
        };
        let ghost pre = *self;
        match self.components.lazy_register(kind) {
            Ok(()) => {},
            Err(e) => {
                return Err(e);
            },
        }
        proof {
            if !pre.registry().registered(kind) {
                Self::lemma_register_keeps_wf(pre, *self, kind);
                assert(self.registry().kinds()[pre.registry().kinds().len() as int] == kind);
            }
            self.registry().lemma_slot(kind);
            assert forall|k: ComponentKind| pre.registry().registered(k) implies #[trigger] self.registry().column_of(k) == pre.registry().column_of(k) by {
                if !pre.registry().registered(kind) {
                    pre.registry().lemma_slot(k);
                    assert(pre.registry().kinds().push(kind)[pre.registry().slot(k)] == k);
                    lemma_slot_of_push(pre.registry().kinds(), kind, k);
                    assert(self.registry().columns().drop_last()[pre.registry().slot(k)] == self.registry().columns()[pre.registry().slot(k)]);
                }
            }
        }
        let ghost mid = *self;
        let j = Ghost(self.registry().slot(kind));
        let column = self.components.borrow_storage_mut_of(kind);
        column.set(id.index, value);
        let kind_mask = self.components.mask_of(kind);
        arena_set(&mut self.entity_masks, id.index, id.generation, mask | kind_mask);
        proof {
            let jj = j@;
            assert(self.registry().kinds() == mid.registry().kinds());
            assert(self.registry().slot(kind) == jj);
            assert forall|i: int| 0 <= i < mid.registry().columns().len() && i != jj implies #[trigger] self.registry().columns()[i] == mid.registry().columns()[i] by {}
            assert forall|s: usize, b: u64| self.slots().contains_key(s) implies (has_bit(self.slots()[s].1, b) <==> self.column_holds(b, s)) by {
                assert(mid.slots().contains_key(s));
                assert(has_bit(mid.slots()[s].1, b) <==> mid.column_holds(b, s));
                if s == id.index {
                    lemma_or(mask, kind_mask, b);
                    lemma_bit_single(jj as u64, b);
                }
            }
            assert forall|i: int, s: usize|
                0 <= i < self.registry().columns().len() && #[trigger] self.registry().columns()[i]@.contains_key(s)
                implies self.slots().contains_key(s) by {
                if s != id.index {
                    assert(mid.registry().columns()[i]@.contains_key(s));
                }
            }
            assert forall|s: usize| #[trigger] self.slots().contains_key(s) implies self.slots()[s].0 <= self.current_generation() by {
                assert(mid.slots().contains_key(s));
            }
            assert forall|k: ComponentKind| k != kind implies #[trigger] self.registry().column_of(k) == pre.registry().column_of(k) by {
                if self.registry().registered(k) {
                    self.registry().lemma_slot(k);
                    if !pre.registry().registered(kind) {
                        lemma_slot_of_push(pre.registry().kinds(), kind, k);
                    }
                    assert(pre.registry().registered(k));
                    assert(self.registry().slot(k) != jj);
                    assert(mid.registry().column_of(k) == pre.registry().column_of(k));
                } else {
                    assert(!pre.registry().registered(k)) by {
                        if pre.registry().registered(k) {
                            pre.registry().lemma_slot(k);
                            if !pre.registry().registered(kind) {
                                assert(pre.registry().kinds().push(kind)[pre.registry().slot(k)] == k);
                            }
                            assert(mid.registry().kinds().contains(k));
                        }
                    }
                }
            }
            if pre.registry().registered(kind) {
                assert(mid.registry().column_of(kind) == pre.registry().column_of(kind));
            } else {
                assert(mid.registry().columns().last()@ == Map::<usize, C>::empty());
                lemma_slot_of_push(pre.registry().kinds(), kind, kind);
                assert(pre.registry().column_of(kind) == Map::<usize, C>::empty());
            }
        }
        Ok(())
    }

    /// The value of `kind` held by live entity `id`, for writing.
    pub fn get_mut(&mut self, id: EntityId, kind: ComponentKind) -> (r: Option<&mut C>)
        requires
            old(self).wf(),
        ensures
            match r {
                Some(x) => {
                    &&& old(self).has_value(id, kind)
                    &&& *x == old(self).registry().column_of(kind)[id.index]
                    &&& final(self).wf()
                    &&& final(self).slots() == old(self).slots()
                    &&& final(self).current_generation() == old(self).current_generation()
                    &&& final(self).registry().kinds() == old(self).registry().kinds()
                    &&& final(self).registry().column_of(kind) == old(self).registry().column_of(kind).insert(id.index, *final(x))
                    &&& forall|k: ComponentKind| k != kind ==> #[trigger] final(self).registry().column_of(k) == old(self).registry().column_of(k)
                },
                None => {
                    &&& !old(self).has_value(id, kind)
                    &&& *final(self) == *old(self)
                },
            },
    {
        if !self.has(id, kind) {
            return None;
        }
        let ghost pre = *self;
        proof {
            pre.registry().lemma_slot(kind);
        }
        proof {
            let j = pre.registry().slot(kind);
            assert forall|k: ComponentKind| k != kind && pre.registry().registered(k) implies pre.registry().slot(k) != j && 0 <= pre.registry().slot(k) < pre.registry().kinds().len() by {
                pre.registry().lemma_slot(k);
            }
            assert forall|s: usize, b: u64| pre.slots().contains_key(s) implies (has_bit(pre.slots()[s].1, b) <==> pre.column_holds(b, s)) by {}
        }
        let column = self.components.borrow_storage_mut_of(kind);
        let r = column.get_mut(id.index);
        r
    }

    /// Takes the value of `kind` away from live entity `id`; nothing changes when it
    /// holds none or `id` is stale.
    pub fn remove(&mut self, id: EntityId, kind: ComponentKind) -> (r: Option<C>)
        requires
            old(self).wf(),
        ensures
            final(self).wf(),
            r == (if old(self).has_value(id, kind) {
                Some(old(self).registry().column_of(kind)[id.index])
            } else {
                None::<C>
            }),
            final(self).current_generation() == old(self).current_generation(),
            final(self).registry().kinds() == old(self).registry().kinds(),
            !old(self).has_value(id, kind) ==> {
                &&& final(self).slots() == old(self).slots()
                &&& final(self).registry() == old(self).registry()
            },
            old(self).has_value(id, kind) ==> {
                &&& final(self).registry().column_of(kind) == old(self).registry().column_of(kind).remove(id.index)
                &&& forall|k: ComponentKind| k != kind ==> #[trigger] final(self).registry().column_of(k) == old(self).registry().column_of(k)
                &&& final(self).slots() == old(self).slots().insert(
                    id.index,
                    (id.generation, old(self).slots()[id.index].1 & !bit(old(self).registry().slot(kind) as u64)),
                )
            },
    {
        if !self.has(id, kind) {
            return None;
        }
        let mask = match arena_get(&self.entity_masks, id.index, id.generation) {
            Some(m) => m,
            None => {
                return None;
            },
        };
        let ghost pre = *self;
        proof {
            pre.registry().lemma_slot(kind);
        }
        let j = Ghost(pre.registry().slot(kind));
        let column = self.components.borrow_storage_mut_of(kind);
        let r = column.remove(id.index);
        let kind_mask = self.components.mask_of(kind);
        arena_set(&mut self.entity_masks, id.index, id.generation, mask & !kind_mask);
        proof {
            let jj = j@;
            assert(self.registry().slot(kind) == jj);
            assert forall|i: int| 0 <= i < pre.registry().columns().len() && i != jj implies #[trigger] self.registry().columns()[i] == pre.registry().columns()[i] by {}
            assert forall|s: usize, b: u64| self.slots().contains_key(s) implies (has_bit(self.slots()[s].1, b) <==> self.column_holds(b, s)) by {
                assert(pre.slots().contains_key(s));
                assert(has_bit(pre.slots()[s].1, b) <==> pre.column_holds(b, s));
                if s == id.index {
                    lemma_and_not(mask, kind_mask, b);
                    lemma_bit_single(jj as u64, b);
                }
            }
            assert forall|i: int, s: usize|
                0 <= i < self.registry().columns().len() && #[trigger] self.registry().columns()[i]@.contains_key(s)
                implies self.slots().contains_key(s) by {
                assert(pre.registry().columns()[i]@.contains_key(s));
            }
            assert forall|s: usize| #[trigger] self.slots().contains_key(s) implies self.slots()[s].0 <= self.current_generation() by {
                assert(pre.slots().contains_key(s));
            }
            assert forall|k: ComponentKind| k != kind implies #[trigger] self.registry().column_of(k) == pre.registry().column_of(k) by {
                if pre.registry().registered(k) {
                    pre.registry().lemma_slot(k);
                }
            }
        }
        r
    }

    /// Every live slot once, as (slot, generation, mask), by increasing slot.
    pub(crate) fn slot_entries(&self) -> (r: Vec<(usize, u64, u64)>)
        ensures
            forall|k: int|
                0 <= k < r@.len() ==> {
                    let (s, g, m) = #[trigger] r@[k];
                    self.slots().contains_key(s) && self.slots()[s] == (g, m)
                },
            forall|k: int, l: int| 0 <= k < l < r@.len() ==> r@[k].0 < r@[l].0,
            forall|s: usize| #[trigger] self.slots().contains_key(s) ==> exists|k: int| 0 <= k < r@.len() && r@[k].0 == s,
    {
        arena_entries(&self.entity_masks)
    }

    /// The mask bit of `kind` in this store's registry.
    pub fn registry_mask_of(&self, kind: ComponentKind) -> (r: ComponentsMask)
        requires
            self.wf(),
        ensures
            r == self.registry().mask_spec(kind),
    {
        self.components.mask_of(kind)
    }

    /// Registers `kind` with an empty column if it has none yet; no value changes.
    pub fn register(&mut self, kind: ComponentKind) -> (r: Result<(), EcsError>)
        requires
            old(self).wf(),
        ensures
            final(self).wf(),
            final(self).slots() == old(self).slots(),
            final(self).current_generation() == old(self).current_generation(),
            old(self).registry().registered(kind) ==> r == Ok::<(), EcsError>(()) && final(self).registry() == old(self).registry(),
            !old(self).registry().registered(kind) && old(self).registry().kinds().len() == 64 ==> r == Err::<(), EcsError>(EcsError::CapacityExceeded) && final(self).registry() == old(self).registry(),
            !old(self).registry().registered(kind) && old(self).registry().kinds().len() < 64 ==> r == Ok::<(), EcsError>(()) && final(self).registry().kinds() == old(self).registry().kinds().push(kind),
            forall|k: ComponentKind| #[trigger] final(self).registry().column_of(k) == old(self).registry().column_of(k),
    {
        let ghost pre = *self;
        let r = self.components.lazy_register(kind);
        proof {
            if !pre.registry().registered(kind) && pre.registry().kinds().len() < 64 {
                Self::lemma_register_keeps_wf(pre, *self, kind);
                assert(self.registry().kinds()[pre.registry().kinds().len() as int] == kind);
                assert forall|k: ComponentKind| #[trigger] self.registry().column_of(k) == pre.registry().column_of(k) by {
                    if pre.registry().registered(k) {
                        pre.registry().lemma_slot(k);
                        assert(pre.registry().kinds().push(kind)[pre.registry().slot(k)] == k);
                        lemma_slot_of_push(pre.registry().kinds(), kind, k);
                        assert(self.registry().columns().drop_last()[pre.registry().slot(k)] == self.registry().columns()[pre.registry().slot(k)]);
                    } else if k == kind {
                        lemma_slot_of_push(pre.registry().kinds(), kind, k);
                        assert(self.registry().columns().last()@ == Map::<usize, C>::empty());
                    } else {
                        if self.registry().registered(k) {
                            self.registry().lemma_slot(k);
                            let i = self.registry().slot(k);
                            if i < pre.registry().kinds().len() {
                                assert(pre.registry().kinds()[i] == k);
                            }
                        }
                    }
                }
            }
        }
        r
    }

    /// The registry, for reading.
    pub fn components(&self) -> (r: &Components<C>)
        ensures
            *r == self.registry(),
    {
        &self.components
    }

    /// A copy of the slot table, with its generation counter.
    pub(crate) fn clone_slot_table(&self) -> (r: Arena<ComponentsMask>)
        ensures
            arena_slots(r) == self.slots(),
            arena_generation(r) == self.current_generation(),
    {
        arena_clone(&self.entity_masks)
    }

    /// A store made of a slot table and a registry.
    pub(crate) fn from_parts(entity_masks: Arena<ComponentsMask>, components: Components<C>, generation: u64) -> (r: Self)
        requires
            generation == arena_generation(entity_masks),
        ensures
            r.slots() == arena_slots(entity_masks),
            r.registry() == components,
            r.current_generation() == generation,
            r.counter() == generation,
    {
        Entities { entity_masks, components, generation }
    }
}

/// Distinct live ids occupy distinct slots, so no two live ids share a slot and a
/// generation.
pub proof fn lemma_live_ids_distinct<C>(w: Entities<C>, a: EntityId, b: EntityId)
    requires
        w.is_live(a),
        w.is_live(b),
        a != b,
    ensures
        a.index != b.index,
{
}

/// A despawned id stays dead across the next spawn, even when that spawn reuses its
/// slot, while the id that the spawn returns is live and differs from it.
///
/// `w1` is `w0` after `despawn(old_id)`, and `w2` is `w1` after a `spawn()` that
/// returned `new_id`.
pub proof fn lemma_generation_safety<C>(
    w0: Entities<C>,
    old_id: EntityId,
    w1: Entities<C>,
    w2: Entities<C>,
    new_id: EntityId,
)
    requires
        w0.wf(),
        w0.is_live(old_id),
        w1.slots() == w0.slots().remove(old_id.index),
        w1.current_generation() == w0.current_generation() + 1,
        !w1.slots().contains_key(new_id.index),
        new_id.generation == w1.current_generation(),
        w2.slots() == w1.slots().insert(new_id.index, (new_id.generation, 0u64)),
    ensures
        !w2.is_live(old_id),
        w2.is_live(new_id),
        new_id != old_id,
{
    assert(w0.slots().contains_key(old_id.index));
}

/// An id that is dead and older than the generation counter stays dead across a spawn,
/// whichever slot the spawn takes, and the counter stays above it; the spawned id is
/// live and differs from it. `despawn` leaves the id it removes in this state, so
/// after any number of spawns the old id never comes back.
///
/// `w2` is `w1` after a `spawn()` that returned `new_id`.
pub proof fn lemma_stale_id_stays_dead<C>(w1: Entities<C>, old_id: EntityId, w2: Entities<C>, new_id: EntityId)
    requires
        w1.wf(),
        !w1.is_live(old_id),
        old_id.generation < w1.current_generation(),
        !w1.slots().contains_key(new_id.index),
        new_id.generation == w1.current_generation(),
        w2.slots() == w1.slots().insert(new_id.index, (new_id.generation, 0u64)),
        w2.current_generation() == w1.current_generation(),
    ensures
        !w2.is_live(old_id),
        old_id.generation < w2.current_generation(),
        w2.is_live(new_id),
        new_id != old_id,
{
}

} // verus!
