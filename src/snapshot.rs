//! Snapshots: the slot table and a selection of columns, copied out of a store and
//! restored into a fresh one; and the values of one entity, saved and restored.
//!
//! A selection is an ordered list of component kinds agreed between saver and loader.
//! A store is restored with its kinds registered in selection order, so the masks in
//! the saved slot table keep their meaning only when the saved store's registry held
//! exactly the selection, in that order. Saving checks this and refuses otherwise.
use vstd::prelude::*;

use crate::arena::{arena_entries, arena_generation, arena_slots};
use crate::components::{ComponentKind, Components, EcsError, SparseSet};
use crate::entities::{AliveEntityId, Entities, EntityId};
use crate::mask::{has_bit, ComponentsMask};
use crate::query::{lemma_selects_by_kinds, BitQuery};
use generational_arena::Arena;

verus! {

/// A saved store: the slot table, with free slots and generation counter, and one
/// column per kind of the selection, in selection order.
pub struct EcsState<C> {
    selection: Vec<ComponentKind>,
    entity_masks: Arena<ComponentsMask>,
    generation: u64,
    columns: Vec<SparseSet<C>>,
}

impl<C> EcsState<C> {
    pub closed spec fn selection(&self) -> Seq<ComponentKind> {
        self.selection@
    }

    pub closed spec fn slots(&self) -> Map<usize, (u64, u64)> {
        arena_slots(self.entity_masks)
    }

    pub closed spec fn columns(&self) -> Seq<SparseSet<C>> {
        self.columns@
    }

    pub closed spec fn current_generation(&self) -> u64 {
        arena_generation(self.entity_masks)
    }

    /// The copy of the generation counter kept beside the slot table.
    pub closed spec fn counter(&self) -> u64 {
        self.generation
    }

    /// The snapshot describes a well-formed store whose kind in slot `i` is the `i`-th
    /// kind of the selection.
    pub open spec fn wf(&self) -> bool {
        &&& self.counter() == self.current_generation()
        &&& self.selection().len() == self.columns().len()
        &&& self.selection().len() <= 64
        &&& self.selection().no_duplicates()
        &&& forall|i: int| 0 <= i < self.columns().len() ==> #[trigger] self.columns()[i].wf()
        &&& forall|s: usize| #[trigger] self.slots().contains_key(s) ==> self.slots()[s].0 <= self.current_generation()
        &&& forall|s: usize, b: u64|
            #![trigger has_bit(self.slots()[s].1, b)]
            self.slots().contains_key(s) ==> (has_bit(self.slots()[s].1, b) <==> (b < self.selection().len()
                && self.columns()[b as int]@.contains_key(s)))
        &&& forall|i: int, s: usize|
            0 <= i < self.columns().len() && #[trigger] self.columns()[i]@.contains_key(s) ==> self.slots().contains_key(s)
    }

    /// The snapshot holds exactly the slot table and the columns of `w`.
    pub open spec fn snapshot_of(&self, w: Entities<C>) -> bool {
        &&& self.selection() == w.registry().kinds()
        &&& self.slots() == w.slots()
        &&& self.current_generation() == w.current_generation()
        &&& self.columns().len() == w.registry().columns().len()
        &&& forall|i: int| 0 <= i < self.columns().len() ==> #[trigger] self.columns()[i]@ == w.registry().columns()[i]@
    }

    /// The selection the snapshot was saved with.
    pub fn selection_kinds(&self) -> (r: &Vec<ComponentKind>)
        ensures
            r@ == self.selection(),
    {
        &self.selection
    }

    /// Every live slot of the saved table once, as (slot, generation, mask), by
    /// increasing slot.
    pub fn entries(&self) -> (r: Vec<(usize, u64, u64)>)
        ensures
            forall|k: int|
                0 <= k < r@.len() ==> {
                    let (s, g, m) = #[trigger] r@[k];
                    self.slots().contains_key(s) && self.slots()[s] == (g, m)
                },
            forall|k: int, l: int| 0 <= k < l < r@.len() ==> r@[k].0 < r@[l].0,
            forall|s: usize| #[trigger] self.slots().contains_key(s) ==> exists|k: int| 0 <= k < r@.len() && r@[k].0 == s,
    {
        arena_entries(&self.entity_masks)
    }

    /// The saved generation counter: the generation the next spawn receives.
    pub fn generation(&self) -> (r: u64)
        requires
            self.wf(),
        ensures
            r == self.current_generation(),
    {
        self.generation
    }

    /// The saved columns, in selection order.
    pub fn saved_columns(&self) -> (r: &Vec<SparseSet<C>>)
        ensures
            r@ == self.columns(),
    {
        &self.columns
    }
}

/// The value that restoring `values` under `selection` leaves for `kind`: the last
/// value given for it, if any.
pub open spec fn restored<C>(selection: Seq<ComponentKind>, values: Seq<Option<C>>, kind: ComponentKind) -> Option<C>
    decreases selection.len(),
{
    if selection.len() == 0 || values.len() != selection.len() {
        None
    } else {
        let n = selection.len() - 1;
        if selection[n] == kind && values[n] is Some {
            values[n]
        } else {
            restored(selection.drop_last(), values.drop_last(), kind)
        }
    }
}

/// Restoring one more value of a selection changes only the kind it names.
proof fn lemma_restored_step<C>(selection: Seq<ComponentKind>, values: Seq<Option<C>>, j: int, kind: ComponentKind)
    requires
        0 <= j < selection.len(),
        values.len() == selection.len(),
    ensures
        restored(selection.subrange(0, j + 1), values.subrange(0, j + 1), kind) == if selection[j] == kind && values[j] is Some {
            values[j]
        } else {
            restored(selection.subrange(0, j), values.subrange(0, j), kind)
        },
{
    let s1 = selection.subrange(0, j + 1);
    let v1 = values.subrange(0, j + 1);
    assert(s1.drop_last() =~= selection.subrange(0, j));
    assert(v1.drop_last() =~= values.subrange(0, j));
    assert(s1[j] == selection[j]);
    assert(v1[j] == values[j]);
}

impl<C> Entities<C> {
    /// Rebuilds a store from a snapshot: the saved slot table, and a fresh registry
    /// whose columns are the saved ones, registered in selection order.
    pub fn load(state: EcsState<C>) -> (r: Self)
        requires
            state.wf(),
        ensures
            r.wf(),
            r.slots() == state.slots(),
            r.current_generation() == state.current_generation(),
            r.registry().kinds() == state.selection(),
            r.registry().columns().len() == state.columns().len(),
            forall|i: int| 0 <= i < state.columns().len() ==> #[trigger] r.registry().columns()[i]@ == state.columns()[i]@,
    {
        let ghost st = state;
        let EcsState { selection, entity_masks, generation, mut columns } = state;
        let mut components: Components<C> = Components::new();
        let n = selection.len();
        let mut i: usize = 0;
        while i < n
            invariant
                n == selection@.len(),
                selection@ == st.selection(),
                columns@.len() == n,
                st.wf(),
                i <= n,
                components.wf(),
                components.kinds() == st.selection().subrange(0, i as int),
                components.columns() == st.columns().subrange(0, i as int),
                forall|j: int| i <= j < n ==> #[trigger] columns@[j] == st.columns()[j],
            decreases n - i,
        {
            let mut column: SparseSet<C> = SparseSet::new();
            std::mem::swap(&mut column, &mut columns[i]);
            let kind = selection[i];
            proof {
                assert(column == st.columns()[i as int]);
                assert(column.wf());
                if components.registered(kind) {
                    let j = choose|j: int| 0 <= j < components.kinds().len() && components.kinds()[j] == kind;
                    assert(st.selection()[j] == st.selection()[i as int]);
                }
            }
            let _ = components.insert_column(kind, column);
            i += 1;
            proof {
                assert(components.kinds() =~= st.selection().subrange(0, i as int));
                assert(components.columns() =~= st.columns().subrange(0, i as int));
            }
        }
        proof {
            assert(components.kinds() =~= st.selection());
            assert(components.columns() =~= st.columns());
        }
        let r = Entities::from_parts(entity_masks, components, generation);
        proof {
            assert forall|i: int, s: usize|
                0 <= i < r.registry().columns().len() && #[trigger] r.registry().columns()[i]@.contains_key(s) implies r.slots().contains_key(s) by {
                assert(st.columns()[i]@.contains_key(s));
            }
            assert forall|s: usize| #[trigger] r.slots().contains_key(s) implies r.slots()[s].0 <= r.current_generation() by {
                assert(st.slots().contains_key(s));
            }
            assert forall|s: usize, b: u64| r.slots().contains_key(s) implies (has_bit(r.slots()[s].1, b) <==> r.column_holds(b, s)) by {
                assert(has_bit(st.slots()[s].1, b) <==> (b < st.selection().len() && st.columns()[b as int]@.contains_key(s)));
            }
        }
        r
    }
}

impl<C: Copy> Entities<C> {
    /// Copies the slot table and the columns of `selection` into a snapshot,
    /// registering first the kinds of `selection` that have no column yet.
    ///
    /// The registry must end up holding exactly `selection`, in order: its kinds must be
    /// a prefix of `selection`, which names no kind twice. Otherwise nothing changes
    /// and `SelectionMismatch` comes back; a selection of more kinds than a mask has
    /// bits gives `CapacityExceeded`.
    pub fn save(&mut self, selection: &Vec<ComponentKind>) -> (r: Result<EcsState<C>, EcsError>)
        requires
            old(self).wf(),
        ensures
            final(self).wf(),
            final(self).slots() == old(self).slots(),
            final(self).current_generation() == old(self).current_generation(),
            forall|k: ComponentKind| #[trigger] final(self).registry().column_of(k) == old(self).registry().column_of(k),
            !(old(self).registry().kinds().is_prefix_of(selection@) && selection@.no_duplicates()) ==> {
                &&& r == Err::<EcsState<C>, EcsError>(EcsError::SelectionMismatch)
                &&& final(self).registry() == old(self).registry()
            },
            old(self).registry().kinds().is_prefix_of(selection@) && selection@.no_duplicates() && selection@.len() > 64 ==> {
                &&& r == Err::<EcsState<C>, EcsError>(EcsError::CapacityExceeded)
                &&& final(self).registry() == old(self).registry()
            },
            old(self).registry().kinds().is_prefix_of(selection@) && selection@.no_duplicates() && selection@.len() <= 64 ==> {
                &&& r is Ok
                &&& final(self).registry().kinds() == selection@
            },
            r matches Ok(state) ==> state.wf() && state.snapshot_of(*final(self)),
    {
        let ghost pre = *self;
        let kinds = self.components().registered_kinds();
        let nk = kinds.len();
        let n = selection.len();
        if nk > n {
            return Err(EcsError::SelectionMismatch);
        }
        let mut i: usize = 0;
        while i < nk
            invariant
                *self == pre,
                pre.wf(),
                nk == kinds@.len(),
                kinds@ == pre.registry().kinds(),
                nk <= n,
                n == selection@.len(),
                i <= nk,
                forall|j: int| 0 <= j < i ==> kinds@[j] == selection@[j],
            decreases nk - i,
        {
            if kinds[i] != selection[i] {
                proof {
                    if pre.registry().kinds().is_prefix_of(selection@) {
                        assert(pre.registry().kinds()[i as int] == selection@.subrange(0, nk as int)[i as int]);
                    }
                }
                return Err(EcsError::SelectionMismatch);
            }
            i += 1;
        }
        assert(pre.registry().kinds() =~= selection@.subrange(0, nk as int));
        let mut a: usize = 0;
        while a < n
            invariant
                *self == pre,
                pre.wf(),
                pre.registry().kinds().is_prefix_of(selection@),
                n == selection@.len(),
                a <= n,
                forall|x: int, y: int| 0 <= x < y < a ==> selection@[x] != selection@[y],
            decreases n - a,
        {
            let mut b: usize = 0;
            while b < a
                invariant
                    *self == pre,
                    pre.wf(),
                    pre.registry().kinds().is_prefix_of(selection@),
                    n == selection@.len(),
                    a < n,
                    b <= a,
                    forall|x: int, y: int| 0 <= x < y < a ==> selection@[x] != selection@[y],
                    forall|x: int| 0 <= x < b ==> selection@[x] != selection@[a as int],
                decreases a - b,
            {
                if selection[b] == selection[a] {
                    proof {
                        assert(!selection@.no_duplicates());
                    }
                    return Err(EcsError::SelectionMismatch);
                }
                b += 1;
            }
            a += 1;
        }
        if n > 64 {
            return Err(EcsError::CapacityExceeded);
        }
        let mut i: usize = nk;
        while i < n
            invariant
                n == selection@.len(),
                n <= 64,
                selection@.no_duplicates(),
                nk <= i <= n,
                self.wf(),
                self.slots() == pre.slots(),
                self.current_generation() == pre.current_generation(),
                self.registry().kinds() == selection@.subrange(0, i as int),
                forall|k: ComponentKind| #[trigger] self.registry().column_of(k) == pre.registry().column_of(k),
            decreases n - i,
        {
            proof {
                if self.registry().registered(selection@[i as int]) {
                    let j = choose|j: int| 0 <= j < self.registry().kinds().len() && self.registry().kinds()[j] == selection@[i as int];
                    assert(selection@[j] == selection@[i as int]);
                }
            }
            let _ = self.register(selection[i]);
            i += 1;
            assert(self.registry().kinds() =~= selection@.subrange(0, i as int));
        }
        assert(self.registry().kinds() =~= selection@);
        let mut sel: Vec<ComponentKind> = Vec::new();
        let mut columns: Vec<SparseSet<C>> = Vec::new();
        let mut j: usize = 0;
        while j < n
            invariant
                n == selection@.len(),
                self.wf(),
                self.registry().kinds() == selection@,
                self.slots() == pre.slots(),
                self.current_generation() == pre.current_generation(),
                forall|k: ComponentKind| #[trigger] self.registry().column_of(k) == pre.registry().column_of(k),
                j <= n,
                sel@ == selection@.subrange(0, j as int),
                columns@.len() == j,
                forall|x: int| 0 <= x < j ==> #[trigger] columns@[x]@ == self.registry().columns()[x]@,
                forall|x: int| 0 <= x < j ==> #[trigger] columns@[x].wf(),
            decreases n - j,
        {
            sel.push(selection[j]);
            let column = self.components().column_at(j).duplicate();
            columns.push(column);
            j += 1;
            assert(sel@ =~= selection@.subrange(0, j as int));
        }
        assert(sel@ =~= selection@);
        let state = EcsState {
            selection: sel,
            entity_masks: self.clone_slot_table(),
            generation: self.generation(),
            columns,
        };
        proof {
            assert(state.columns().len() == self.registry().columns().len());
            assert(state.selection() == self.registry().kinds());
            assert(state.slots() == self.slots());
            assert(state.counter() == state.current_generation());
            assert forall|i: int| 0 <= i < state.columns().len() implies #[trigger] state.columns()[i].wf() by {}
            assert forall|s: usize, b: u64| state.slots().contains_key(s) implies (has_bit(state.slots()[s].1, b) <==> (b < state.selection().len()
                && state.columns()[b as int]@.contains_key(s))) by {
                assert(has_bit(self.slots()[s].1, b) <==> self.column_holds(b, s));
            }
            assert forall|i: int, s: usize|
                0 <= i < state.columns().len() && #[trigger] state.columns()[i]@.contains_key(s) implies state.slots().contains_key(s) by {
                assert(self.registry().columns()[i]@.contains_key(s));
            }
            assert forall|s: usize| #[trigger] state.slots().contains_key(s) implies state.slots()[s].0 <= state.current_generation() by {
                assert(self.slots().contains_key(s));
            }
        }
        Ok(state)
    }

    /// The values of `selection` held by entity `id`, in selection order, with `None`
    /// for a kind it does not hold.
    pub fn save_entity(&self, selection: &Vec<ComponentKind>, id: EntityId) -> (r: Vec<Option<C>>)
        requires
            self.wf(),
        ensures
            r@.len() == selection@.len(),
            forall|j: int|
                0 <= j < selection@.len() ==> #[trigger] r@[j] == (if self.has_value(id, selection@[j]) {
                    Some(self.registry().column_of(selection@[j])[id.index])
                } else {
                    None::<C>
                }),
    {
        let mut r: Vec<Option<C>> = Vec::new();
        let mut j: usize = 0;
        while j < selection.len()
            invariant
                self.wf(),
                j <= selection@.len(),
                r@.len() == j,
                forall|x: int|
                    0 <= x < j ==> #[trigger] r@[x] == (if self.has_value(id, selection@[x]) {
                        Some(self.registry().column_of(selection@[x])[id.index])
                    } else {
                        None::<C>
                    }),
            decreases selection@.len() - j,
        {
            let value = match self.get(id, selection[j]) {
                Some(v) => Some(*v),
                None => None,
            };
            r.push(value);
            j += 1;
        }
        r
    }

    /// Spawns an entity and gives it the saved values `state` of `selection`.
    ///
    /// The entity must land in slot `entity_id`, the one recorded at save time; if it
    /// does not, the load stops with `Desync` and the new entity stays without values.
    pub fn load_entity(&mut self, selection: &Vec<ComponentKind>, entity_id: AliveEntityId, state: Vec<Option<C>>) -> (r: Result<EntityId, EcsError>)
        requires
            old(self).wf(),
            state@.len() == selection@.len(),
        ensures
            final(self).wf(),
            final(self).current_generation() == old(self).current_generation(),
            exists|id: EntityId| {
                &&& !old(self).slots().contains_key(id.index)
                &&& id.generation == old(self).current_generation()
                &&& final(self).is_live(id)
                &&& final(self).slots().dom() == old(self).slots().dom().insert(id.index)
                &&& final(self).slots().remove(id.index) == old(self).slots()
                &&& forall|k: ComponentKind| #[trigger] final(self).registry().column_of(k).remove(id.index) == old(self).registry().column_of(k)
                &&& (id.index == entity_id.0 <==> r != Err::<EntityId, EcsError>(EcsError::Desync))
                &&& (id.index == entity_id.0 && old(self).registry().kinds().len() + selection@.len() <= 64 ==> r == Ok::<EntityId, EcsError>(id))
                &&& (r is Ok ==> r == Ok::<EntityId, EcsError>(id))
            },
            r matches Ok(id) ==> {
                &&& id.index == entity_id.0
                &&& final(self).is_live(id)
                &&& forall|k: ComponentKind|
                    #[trigger] final(self).registry().column_of(k).contains_key(id.index) == (restored(selection@, state@, k) is Some)
                &&& forall|k: ComponentKind|
                    #[trigger] restored(selection@, state@, k) is Some ==> final(self).registry().column_of(k)[id.index] == restored(selection@, state@, k)->Some_0
            },
    {
        let ghost pre = *self;
        let id = self.spawn();
        if id.index != entity_id.0 {
            proof {
                assert(self.slots().dom() =~= pre.slots().dom().insert(id.index));
                assert(self.slots().remove(id.index) =~= pre.slots());
                assert forall|k: ComponentKind| #[trigger] self.registry().column_of(k).remove(id.index) == pre.registry().column_of(k) by {
                    if self.registry().column_of(k).contains_key(id.index) {
                        self.registry().lemma_slot(k);
                        assert(pre.registry().columns()[self.registry().slot(k)]@.contains_key(id.index));
                    }
                    assert(self.registry().column_of(k).remove(id.index) =~= pre.registry().column_of(k));
                }
            }
            return Err(EcsError::Desync);
        }
        let ghost spawned = *self;
        proof {
            assert(self.slots().dom() =~= pre.slots().dom().insert(id.index));
            assert(self.slots().remove(id.index) =~= pre.slots());
            assert forall|k: ComponentKind| !#[trigger] self.registry().column_of(k).contains_key(id.index) by {
                if self.registry().registered(k) {
                    self.registry().lemma_slot(k);
                    if self.registry().column_of(k).contains_key(id.index) {
                        assert(pre.registry().columns()[self.registry().slot(k)]@.contains_key(id.index));
                    }
                }
            }
        }
        proof {
            assert forall|k: ComponentKind| #[trigger] self.registry().column_of(k).remove(id.index) == pre.registry().column_of(k) by {
                assert(!self.registry().column_of(k).contains_key(id.index));
                assert(self.registry().column_of(k).remove(id.index) =~= pre.registry().column_of(k));
            }
        }
        let n = selection.len();
        let mut j: usize = 0;
        while j < n
            invariant
                n == selection@.len(),
                state@.len() == n,
                j <= n,
                pre == *old(self),
                self.wf(),
                self.is_live(id),
                id.index == entity_id.0,
                !pre.slots().contains_key(id.index),
                id.generation == pre.current_generation(),
                spawned.slots().dom() == pre.slots().dom().insert(id.index),
                self.slots().remove(id.index) == pre.slots(),
                forall|k: ComponentKind| #[trigger] self.registry().column_of(k).remove(id.index) == pre.registry().column_of(k),
                self.current_generation() == pre.current_generation(),
                self.slots().dom() == spawned.slots().dom(),
                self.registry().kinds().len() <= pre.registry().kinds().len() + j,
                forall|k: ComponentKind|
                    #[trigger] self.registry().column_of(k).contains_key(id.index) == (restored(selection@.subrange(0, j as int), state@.subrange(0, j as int), k) is Some),
                forall|k: ComponentKind|
                    #[trigger] restored(selection@.subrange(0, j as int), state@.subrange(0, j as int), k) is Some ==> self.registry().column_of(k)[id.index] == restored(selection@.subrange(0, j as int), state@.subrange(0, j as int), k)->Some_0,
            decreases n - j,
        {
            let ghost before = *self;
            match state[j] {
                Some(v) => {
                    match self.set(id, selection[j], v) {
                        Ok(()) => {},
                        Err(e) => {
                            proof {
                                assert(e == EcsError::CapacityExceeded);
                                assert(self.slots().dom() =~= spawned.slots().dom());
                                assert(!pre.slots().contains_key(id.index) && id.generation == pre.current_generation() && self.is_live(id));
                            }
                            return Err(e);
                        },
                    }
                },
                None => {},
            }
            proof {
                let s0 = selection@.subrange(0, j as int);
                let v0 = state@.subrange(0, j as int);
                let s1 = selection@.subrange(0, j + 1);
                let v1 = state@.subrange(0, j + 1);
                assert(self.slots().dom() =~= before.slots().dom());
                assert(self.slots().remove(id.index) =~= before.slots().remove(id.index));
                assert forall|k: ComponentKind| #[trigger] self.registry().column_of(k).remove(id.index) == pre.registry().column_of(k) by {
                    assert(before.registry().column_of(k).remove(id.index) == pre.registry().column_of(k));
                    assert(self.registry().column_of(k).remove(id.index) =~= before.registry().column_of(k).remove(id.index));
                }
                assert forall|k: ComponentKind|
                    #[trigger] self.registry().column_of(k).contains_key(id.index) == (restored(s1, v1, k) is Some) by {
                    lemma_restored_step(selection@, state@, j as int, k);
                    assert(before.registry().column_of(k).contains_key(id.index) == (restored(s0, v0, k) is Some));
                }
                assert forall|k: ComponentKind|
                    #[trigger] restored(s1, v1, k) is Some implies self.registry().column_of(k)[id.index] == restored(s1, v1, k)->Some_0 by {
                    lemma_restored_step(selection@, state@, j as int, k);
                    assert(before.registry().column_of(k).contains_key(id.index) == (restored(s0, v0, k) is Some));
                }
            }
            j += 1;
        }
        proof {
            assert(selection@.subrange(0, n as int) =~= selection@);
            assert(state@.subrange(0, n as int) =~= state@);
            assert forall|k: ComponentKind|
                #[trigger] self.registry().column_of(k).contains_key(id.index) == (restored(selection@, state@, k) is Some) by {
                assert(self.registry().column_of(k).contains_key(id.index) == restored(selection@.subrange(0, n as int), state@.subrange(0, n as int), k) is Some);
            }
            assert forall|k: ComponentKind|
                #[trigger] restored(selection@, state@, k) is Some implies self.registry().column_of(k)[id.index] == restored(selection@, state@, k)->Some_0 by {
                assert(restored(selection@.subrange(0, n as int), state@.subrange(0, n as int), k) is Some);
            }
            assert(!pre.slots().contains_key(id.index) && id.generation == pre.current_generation() && self.is_live(id));
        }
        Ok(id)
    }
}

/// Saving and then loading gives back every entity that was alive at save time, with
/// the same value of every component kind.
///
/// `saved` is `before` after `save(selection)` returned `state`, and `after` is
/// `load(state)`.
pub proof fn lemma_round_trip<C>(before: Entities<C>, saved: Entities<C>, state: EcsState<C>, after: Entities<C>)
    requires
        before.wf(),
        saved.wf(),
        saved.slots() == before.slots(),
        forall|k: ComponentKind| #[trigger] saved.registry().column_of(k) == before.registry().column_of(k),
        state.snapshot_of(saved),
        after.slots() == state.slots(),
        after.registry().kinds() == state.selection(),
        after.registry().columns().len() == state.columns().len(),
        forall|i: int| 0 <= i < state.columns().len() ==> #[trigger] after.registry().columns()[i]@ == state.columns()[i]@,
    ensures
        forall|id: EntityId| #[trigger] after.is_live(id) == before.is_live(id),
        forall|id: EntityId, k: ComponentKind| #[trigger] after.has_value(id, k) == before.has_value(id, k),
        forall|id: EntityId, k: ComponentKind|
            #[trigger] before.has_value(id, k) ==> after.registry().column_of(k)[id.index] == before.registry().column_of(k)[id.index],
{
    assert forall|k: ComponentKind| #[trigger] after.registry().column_of(k) == saved.registry().column_of(k) by {
        if saved.registry().registered(k) {
            let i = saved.registry().slot(k);
            assert(after.registry().kinds() == saved.registry().kinds());
            assert(after.registry().columns()[i]@ == saved.registry().columns()[i]@);
        }
    }
    assert forall|id: EntityId, k: ComponentKind| #[trigger] after.has_value(id, k) == before.has_value(id, k) by {
        assert(after.registry().column_of(k) == before.registry().column_of(k));
    }
    assert forall|id: EntityId, k: ComponentKind|
        #[trigger] before.has_value(id, k) implies after.registry().column_of(k)[id.index] == before.registry().column_of(k)[id.index] by {
        assert(after.registry().column_of(k) == before.registry().column_of(k));
    }
}

/// After saving and loading, a query built from the same included and excluded kinds
/// selects the same entities in the loaded store as in the store before saving.
///
/// `saved` is `before` after `save(selection)` returned `state`, `after` is
/// `load(state)`, and `q_before`, `q_after` are queries over `before` and `after`.
pub proof fn lemma_round_trip_queries<C>(
    before: Entities<C>,
    saved: Entities<C>,
    state: EcsState<C>,
    after: Entities<C>,
    q_before: BitQuery<'_, C>,
    q_after: BitQuery<'_, C>,
    s: usize,
)
    requires
        before.wf(),
        saved.wf(),
        saved.slots() == before.slots(),
        forall|k: ComponentKind| #[trigger] saved.registry().column_of(k) == before.registry().column_of(k),
        state.snapshot_of(saved),
        after.slots() == state.slots(),
        after.registry().kinds() == state.selection(),
        after.registry().columns().len() == state.columns().len(),
        forall|i: int| 0 <= i < state.columns().len() ==> #[trigger] after.registry().columns()[i]@ == state.columns()[i]@,
        q_before.wf(),
        q_after.wf(),
        q_before.world() == before,
        q_after.world() == after,
        q_before.included_kinds() == q_after.included_kinds(),
        q_before.excluded_kinds() == q_after.excluded_kinds(),
    ensures
        q_before.selects(s) == q_after.selects(s),
{
    lemma_round_trip(before, saved, state, after);
    if before.slots().contains_key(s) {
        let id = EntityId { index: s, generation: before.slots()[s].0 };
        assert(before.is_live(id));
        assert(after.is_live(id));
        lemma_selects_by_kinds(q_before, id);
        lemma_selects_by_kinds(q_after, id);
        assert forall|k: ComponentKind| #[trigger] after.has_value(id, k) == before.has_value(id, k) by {}
        if q_before.selects(s) {
            assert forall|k: ComponentKind| q_after.included_kinds().contains(k) implies #[trigger] after.has_value(id, k) by {
                assert(before.has_value(id, k));
            }
            assert forall|k: ComponentKind| q_after.excluded_kinds().contains(k) implies !#[trigger] after.has_value(id, k) by {
                assert(!before.has_value(id, k));
            }
        }
        if q_after.selects(s) {
            assert forall|k: ComponentKind| q_before.included_kinds().contains(k) implies #[trigger] before.has_value(id, k) by {
                assert(after.has_value(id, k));
            }
            assert forall|k: ComponentKind| q_before.excluded_kinds().contains(k) implies !#[trigger] before.has_value(id, k) by {
                assert(!after.has_value(id, k));
            }
        }
    }
}

} // verus!
