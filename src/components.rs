//! Per-kind component storage and the registry of component kinds.
use vstd::prelude::*;

use crate::mask::{bit, has_bit, lemma_bit_test, ComponentsMask, COMPONENTS_MASK_SIZE};

verus! {

/// Stable identifier of a component kind, chosen by the host.
pub type ComponentKind = u64;

/// Failures that the store reports instead of corrupting its state.
#[derive(Debug, Clone, Copy, PartialEq, Eq, Structural)]
pub enum EcsError {
    /// Every bit of the component mask is already assigned to a kind.
    CapacityExceeded,
    /// The registry's kinds, in slot order, are not the selection being saved.
    SelectionMismatch,
    /// A restored entity did not land on the slot index recorded for it.
    Desync,
    /// The entity id is stale: its slot is free or holds a later generation.
    Stale,
}

/// Dense storage for the values of one component kind, keyed by entity slot index.
///
/// `dense` packs the values with the index that owns each of them; `sparse` maps an
/// index to the position of its value in `dense`.
pub struct SparseSet<T> {
    dense: Vec<(T, usize)>,
    sparse: Vec<Option<usize>>,
}

impl<T> SparseSet<T> {
    /// The indices that own the dense entries, in dense order.
    pub closed spec fn owners(&self) -> Seq<usize> {
        self.dense@.map_values(|e: (T, usize)| e.1)
    }

    /// Every present sparse entry points at a dense entry owned by that index, and
    /// every dense entry is pointed at by the sparse entry of its owner.
    pub closed spec fn wf(&self) -> bool {
        &&& forall|i: int|
            0 <= i < self.sparse@.len() && #[trigger] self.sparse@[i] is Some ==> {
                let d = self.sparse@[i]->Some_0 as int;
                0 <= d < self.dense@.len() && self.dense@[d].1 == i
            }
        &&& forall|d: int|
            0 <= d < self.dense@.len() ==> {
                let o = #[trigger] self.dense@[d].1 as int;
                &&& 0 <= o < self.sparse@.len()
                &&& self.sparse@[o] is Some
                &&& self.sparse@[o]->Some_0 as int == d
            }
    }

    /// The stored values, by index.
    pub closed spec fn view(&self) -> Map<usize, T> {
        Map::new(
            |i: usize| (i as int) < self.sparse@.len() && self.sparse@[i as int] is Some,
            |i: usize| self.dense@[self.sparse@[i as int]->Some_0 as int].0,
        )
    }

    proof fn lemma_dom_is_owners(&self)
        requires
            self.wf(),
        ensures
            self@.dom() == self.owners().to_set(),
            self.owners().no_duplicates(),
            self@.dom().finite(),
            self@.dom().len() == self.dense@.len(),
    {
        assert forall|i: usize| self@.dom().contains(i) implies self.owners().to_set().contains(i) by {
            let d = self.sparse@[i as int]->Some_0 as int;
            assert(self.owners()[d] == i);
        }
        assert forall|i: usize| self.owners().to_set().contains(i) implies self@.dom().contains(i) by {
            let d = choose|d: int| 0 <= d < self.owners().len() && self.owners()[d] == i;
            assert(self.dense@[d].1 == i);
        }
        assert(self@.dom() =~= self.owners().to_set());
        assert forall|a: int, b: int|
            0 <= a < self.owners().len() && 0 <= b < self.owners().len() && a != b
            implies self.owners()[a] != self.owners()[b] by {
            assert(self.dense@[a].1 == self.owners()[a]);
            assert(self.dense@[b].1 == self.owners()[b]);
            if self.owners()[a] == self.owners()[b] {
                let o = self.owners()[a] as int;
                assert(self.sparse@[o]->Some_0 as int == a);
                assert(self.sparse@[o]->Some_0 as int == b);
            }
        }
        self.owners().unique_seq_to_set();
    }

    pub fn new() -> (r: Self)
        ensures
            r.wf(),
            r@ == Map::<usize, T>::empty(),
            r@.dom().finite(),
    {
        let r = SparseSet { dense: Vec::new(), sparse: Vec::new() };
        assert(r@ =~= Map::<usize, T>::empty());
        r
    }

    /// Number of stored values.
    pub fn len(&self) -> (r: usize)
        requires
            self.wf(),
        ensures
            r == self@.len(),
    {
        proof {
            self.lemma_dom_is_owners();
        }
        self.dense.len()
    }

    pub fn contains(&self, index: usize) -> (r: bool)
        ensures
            r == self@.contains_key(index),
    {
        index < self.sparse.len() && self.sparse[index].is_some()
    }

    pub fn get(&self, index: usize) -> (r: Option<&T>)
        requires
            self.wf(),
        ensures
            r == (if self@.contains_key(index) {
                Some(&self@[index])
            } else {
                None
            }),
    {
        if index < self.sparse.len() {
            match self.sparse[index] {
                Some(d) => Some(&self.dense[d].0),
                None => None,
            }
        } else {
            None
        }
    }

    pub fn get_mut(&mut self, index: usize) -> (r: Option<&mut T>)
        requires
            old(self).wf(),
        ensures
            match r {
                Some(x) => {
                    &&& old(self)@.contains_key(index)
                    &&& *x == old(self)@[index]
                    &&& final(self).wf()
                    &&& final(self)@ == old(self)@.insert(index, *final(x))
                },
                None => {
                    &&& !old(self)@.contains_key(index)
                    &&& *final(self) == *old(self)
                },
            },
    {
        if index < self.sparse.len() {
            match self.sparse[index] {
                Some(d) => {
                    let entry = &mut self.dense[d];
                    Some(&mut entry.0)
                },
                None => None,
            }
        } else {
            None
        }
    }

    /// Stores `value` under `index`, overwriting the value already there.
    pub fn set(&mut self, index: usize, value: T)
        requires
            old(self).wf(),
        ensures
            final(self).wf(),
            final(self)@ == old(self)@.insert(index, value),
            final(self)@.dom().finite(),
            final(self)@.len() == old(self)@.len() + if old(self)@.contains_key(index) {
                0int
            } else {
                1int
            },
    {
        proof {
            self.lemma_dom_is_owners();
        }
        if self.contains(index) {
            match self.get_mut(index) {
                Some(x) => {
                    *x = value;
                },
                None => {},
            }
            proof {
                self.lemma_dom_is_owners();
                assert(self@.dom() =~= old(self)@.dom());
            }
            return;
        }
        let ghost pre = *self;
        while self.sparse.len() <= index
            invariant
                self.wf(),
                self@ == pre@,
                self.dense == pre.dense,
                !self@.contains_key(index),
            decreases index + 1 - self.sparse@.len(),
        {
            let ghost before = *self;
            self.sparse.push(None);
            assert(self@ =~= before@);
        }
        let ghost mid = *self;
        let d = self.dense.len();
        self.dense.push((value, index));
        self.sparse[index] = Some(d);
        proof {
            assert forall|i: int|
                0 <= i < self.sparse@.len() && #[trigger] self.sparse@[i] is Some implies {
                let e = self.sparse@[i]->Some_0 as int;
                0 <= e < self.dense@.len() && self.dense@[e].1 == i
            } by {
                if i != index as int {
                    assert(mid.sparse@[i] is Some);
                }
            }
            assert forall|e: int| 0 <= e < self.dense@.len() implies {
                let o = #[trigger] self.dense@[e].1 as int;
                &&& 0 <= o < self.sparse@.len()
                &&& self.sparse@[o] is Some
                &&& self.sparse@[o]->Some_0 as int == e
            } by {
                if e < d {
                    assert(mid.dense@[e] == self.dense@[e]);
                    let o = mid.dense@[e].1 as int;
                    assert(o != index as int);
                }
            }
            assert(self@ =~= mid@.insert(index, value));
            self.lemma_dom_is_owners();
        }
    }

    /// Removes the value under `index` by moving the last dense entry into its place.
    pub fn remove(&mut self, index: usize) -> (r: Option<T>)
        requires
            old(self).wf(),
        ensures
            final(self).wf(),
            final(self)@ == old(self)@.remove(index),
            r == (if old(self)@.contains_key(index) {
                Some(old(self)@[index])
            } else {
                None
            }),
            final(self)@.dom().finite(),
            old(self)@.contains_key(index) ==> final(self)@.len() == old(self)@.len() - 1,
            !old(self)@.contains_key(index) ==> *final(self) == *old(self),
    {
        proof {
            self.lemma_dom_is_owners();
        }
        if index >= self.sparse.len() {
            return None;
        }
        let slot = self.sparse[index];
        match slot {
            None => None,
            Some(d) => {
                let ghost pre = *self;
                let last = (self.dense.len() - 1) as usize;
                let (value, _) = self.dense.swap_remove(d);
                if d < last {
                    let moved = self.dense[d].1;
                    proof {
                        assert(pre.dense@[last as int].1 == moved);
                    }
                    self.sparse[moved] = Some(d);
                }
                self.sparse[index] = None;
                proof {
                    assert forall|i: int|
                        0 <= i < self.sparse@.len() && #[trigger] self.sparse@[i] is Some implies {
                        let e = self.sparse@[i]->Some_0 as int;
                        0 <= e < self.dense@.len() && self.dense@[e].1 == i
                    } by {
                        assert(pre.sparse@[i] is Some);
                        let e0 = pre.sparse@[i]->Some_0 as int;
                        assert(pre.dense@[e0].1 == i);
                        if e0 == last {
                        } else {
                            assert(e0 != d);
                        }
                    }
                    assert forall|e: int| 0 <= e < self.dense@.len() implies {
                        let o = #[trigger] self.dense@[e].1 as int;
                        &&& 0 <= o < self.sparse@.len()
                        &&& self.sparse@[o] is Some
                        &&& self.sparse@[o]->Some_0 as int == e
                    } by {
                        if e != d {
                            assert(pre.dense@[e] == self.dense@[e]);
                            let o = pre.dense@[e].1 as int;
                            assert(pre.sparse@[o]->Some_0 as int == e);
                        } else {
                            assert(pre.dense@[last as int] == self.dense@[e]);
                        }
                    }
                    assert forall|i: usize| #[trigger] self@.contains_key(i) implies self@[i]
                        == pre@[i] by {
                        assert(pre.sparse@[i as int] is Some);
                    }
                    assert(self@ =~= pre@.remove(index));
                    assert(pre@.dom().finite());
                }
                Some(value)
            },
        }
    }

    /// The stored entries as `(index, value)` pairs, by increasing index.
    pub fn iter(&self) -> (r: Vec<(usize, &T)>)
        requires
            self.wf(),
        ensures
            forall|k: int|
                0 <= k < r@.len() ==> {
                    let (i, v) = #[trigger] r@[k];
                    self@.contains_key(i) && *v == self@[i]
                },
            forall|k: int, l: int| 0 <= k < l < r@.len() ==> r@[k].0 < r@[l].0,
            forall|i: usize| #[trigger] self@.contains_key(i) ==> exists|k: int| 0 <= k < r@.len() && r@[k].0 == i,
    {
        let mut r: Vec<(usize, &T)> = Vec::new();
        let mut j: usize = 0;
        while j < self.sparse.len()
            invariant
                self.wf(),
                j <= self.sparse@.len(),
                forall|k: int|
                    0 <= k < r@.len() ==> {
                        let (i, v) = #[trigger] r@[k];
                        self@.contains_key(i) && *v == self@[i] && i < j
                    },
                forall|k: int, l: int| 0 <= k < l < r@.len() ==> r@[k].0 < r@[l].0,
                forall|i: usize| #[trigger] self@.contains_key(i) && i < j ==> exists|k: int| 0 <= k < r@.len() && r@[k].0 == i,
            decreases self.sparse@.len() - j,
        {
            match self.sparse[j] {
                Some(d) => {
                    let ghost before = r@;
                    r.push((j, &self.dense[d].0));
                    proof {
                        assert forall|i: usize| #[trigger] self@.contains_key(i) && i < j + 1 implies exists|k: int| 0 <= k < r@.len() && r@[k].0 == i by {
                            if i < j {
                                let k = choose|k: int| 0 <= k < before.len() && before[k].0 == i;
                                assert(r@[k].0 == i);
                            } else {
                                assert(r@[before.len() as int].0 == i);
                            }
                        }
                    }
                },
                None => {},
            }
            j += 1;
        }
        r
    }
}

/// Reading after a write: once `value` is set under `index`, `get(index)` finds it,
/// and every other index keeps what it held.
pub proof fn lemma_get_after_set<T>(s: SparseSet<T>, index: usize, value: T)
    requires
        s.wf(),
    ensures
        s@.insert(index, value).contains_key(index),
        s@.insert(index, value)[index] == value,
        forall|j: usize| j != index ==> (#[trigger] s@.insert(index, value).contains_key(j)) == s@.contains_key(j),
        forall|j: usize| j != index && s@.contains_key(j) ==> #[trigger] s@.insert(index, value)[j] == s@[j],
{
}

/// Reading after a removal: `get(index)` finds nothing, and every other index keeps
/// what it held.
pub proof fn lemma_get_after_remove<T>(s: SparseSet<T>, index: usize)
    requires
        s.wf(),
    ensures
        !s@.remove(index).contains_key(index),
        forall|j: usize| j != index ==> (#[trigger] s@.remove(index).contains_key(j)) == s@.contains_key(j),
        forall|j: usize| j != index && s@.contains_key(j) ==> #[trigger] s@.remove(index)[j] == s@[j],
{
}

/// The contents that a fresh sparse set reaches through a history of writes: an entry
/// `(index, Some(v))` is `set(index, v)`, and `(index, None)` is `remove(index)`.
pub open spec fn replay<T>(ops: Seq<(usize, Option<T>)>) -> Map<usize, T>
    decreases ops.len(),
{
    if ops.len() == 0 {
        Map::empty()
    } else {
        let prev = replay(ops.drop_last());
        let (i, w) = ops.last();
        match w {
            Some(v) => prev.insert(i, v),
            None => prev.remove(i),
        }
    }
}

/// The last write to `index` in a history: `Some(Some(v))` for a set, `Some(None)` for
/// a removal, `None` when the history never touches `index`.
pub open spec fn last_write<T>(ops: Seq<(usize, Option<T>)>, index: usize) -> Option<Option<T>>
    decreases ops.len(),
{
    if ops.len() == 0 {
        None
    } else if ops.last().0 == index {
        Some(ops.last().1)
    } else {
        last_write(ops.drop_last(), index)
    }
}

/// One more write extends the replayed contents as `set` and `remove` change a set.
pub proof fn lemma_replay_push<T>(ops: Seq<(usize, Option<T>)>, index: usize, w: Option<T>)
    ensures
        replay(ops.push((index, w))) == match w {
            Some(v) => replay(ops).insert(index, v),
            None => replay(ops).remove(index),
        },
{
    assert(ops.push((index, w)).drop_last() =~= ops);
}

/// After any history of writes, `get(index)` finds the value of the last write to
/// `index` when that write was a set, and nothing when it was a removal or when no
/// write touched `index`.
pub proof fn lemma_replay_get<T>(ops: Seq<(usize, Option<T>)>, index: usize)
    ensures
        replay(ops).contains_key(index) == (last_write(ops, index) matches Some(Some(_))),
        last_write(ops, index) matches Some(Some(v)) ==> replay(ops)[index] == v,
    decreases ops.len(),
{
    if ops.len() > 0 {
        lemma_replay_get(ops.drop_last(), index);
    }
}

impl<T: Copy> SparseSet<T> {
    /// A copy of the column, with the same values under the same indices.
    pub fn duplicate(&self) -> (r: Self)
        requires
            self.wf(),
        ensures
            r.wf(),
            r@ == self@,
    {
        let mut dense: Vec<(T, usize)> = Vec::new();
        let mut k: usize = 0;
        while k < self.dense.len()
            invariant
                k <= self.dense@.len(),
                dense@ == self.dense@.subrange(0, k as int),
            decreases self.dense@.len() - k,
        {
            dense.push(self.dense[k]);
            k += 1;
            assert(dense@ =~= self.dense@.subrange(0, k as int));
        }
        let mut sparse: Vec<Option<usize>> = Vec::new();
        let mut j: usize = 0;
        while j < self.sparse.len()
            invariant
                j <= self.sparse@.len(),
                sparse@ == self.sparse@.subrange(0, j as int),
            decreases self.sparse@.len() - j,
        {
            sparse.push(self.sparse[j]);
            j += 1;
            assert(sparse@ =~= self.sparse@.subrange(0, j as int));
        }
        assert(dense@ =~= self.dense@);
        assert(sparse@ =~= self.sparse@);
        let r = SparseSet { dense, sparse };
        assert(r@ =~= self@);
        r
    }
}

/// The registry: one column per component kind, in order of registration.
///
/// The kind in slot `i` owns bit `i` of every component mask. Slots are handed out in
/// increasing order and never reassigned. Columns are reached through `&` or `&mut`
/// borrows of the registry, so a column is never read and written at once.
pub struct Components<C> {
    kinds: Vec<ComponentKind>,
    columns: Vec<SparseSet<C>>,
    /// The slot of each registered kind.
    slots: std::collections::HashMap<ComponentKind, usize>,
}

/// The slot of `kind` in `kinds`, if it is there.
pub open spec fn slot_of(kinds: Seq<ComponentKind>, kind: ComponentKind) -> int {
    choose|i: int| 0 <= i < kinds.len() && kinds[i] == kind
}

/// Appending a new kind leaves the slots of the kinds already there unchanged.
pub proof fn lemma_slot_of_push(kinds: Seq<ComponentKind>, kind: ComponentKind, k: ComponentKind)
    requires
        kinds.push(kind).no_duplicates(),
        kinds.push(kind).contains(k),
    ensures
        0 <= slot_of(kinds.push(kind), k) < kinds.len() + 1,
        kinds.push(kind)[slot_of(kinds.push(kind), k)] == k,
        k == kind ==> slot_of(kinds.push(kind), k) == kinds.len(),
        k != kind ==> kinds.contains(k) && slot_of(kinds.push(kind), k) == slot_of(kinds, k),
{
    let p = kinds.push(kind);
    let j = slot_of(p, k);
    if k == kind {
        assert(p[kinds.len() as int] == k);
    } else {
        assert(j != kinds.len());
        assert(kinds[j] == k);
        let i = slot_of(kinds, k);
        assert(p[i] == k);
    }
}

impl<C> Components<C> {
    /// Registered kinds, by slot.
    pub closed spec fn kinds(&self) -> Seq<ComponentKind> {
        self.kinds@
    }

    /// The columns, by slot.
    pub closed spec fn columns(&self) -> Seq<SparseSet<C>> {
        self.columns@
    }

    pub open spec fn registered(&self, kind: ComponentKind) -> bool {
        self.kinds().contains(kind)
    }

    pub open spec fn slot(&self, kind: ComponentKind) -> int {
        slot_of(self.kinds(), kind)
    }

    /// The values of `kind`, by entity index; empty for an unregistered kind.
    pub open spec fn column_of(&self, kind: ComponentKind) -> Map<usize, C> {
        if self.registered(kind) {
            self.columns()[self.slot(kind)]@
        } else {
            Map::empty()
        }
    }

    /// The mask bit of `kind`, or no bit for an unregistered kind.
    pub open spec fn mask_spec(&self, kind: ComponentKind) -> u64 {
        if self.registered(kind) {
            bit(self.slot(kind) as u64)
        } else {
            0
        }
    }

    /// Each registered kind maps to its slot in the index.
    pub closed spec fn index_ok(&self) -> bool {
        &&& forall|k: ComponentKind| #[trigger] self.slots@.contains_key(k) <==> self.kinds@.contains(k)
        &&& forall|k: ComponentKind|
            #[trigger] self.slots@.contains_key(k) ==> self.slots@[k] < self.kinds@.len() && self.kinds@[self.slots@[k] as int] == k
    }

    pub open spec fn wf(&self) -> bool {
        &&& self.kinds().len() == self.columns().len()
        &&& self.kinds().len() <= 64
        &&& self.kinds().no_duplicates()
        &&& forall|i: int| 0 <= i < self.columns().len() ==> #[trigger] self.columns()[i].wf()
        &&& self.index_ok()
    }

    pub proof fn lemma_slot(&self, kind: ComponentKind)
        requires
            self.wf(),
            self.registered(kind),
        ensures
            0 <= self.slot(kind) < self.kinds().len(),
            self.kinds()[self.slot(kind)] == kind,
            forall|i: int| 0 <= i < self.kinds().len() && self.kinds()[i] == kind ==> i == self.slot(kind),
    {
    }

    pub fn new() -> (r: Self)
        ensures
            r.wf(),
            r.kinds() == Seq::<ComponentKind>::empty(),
    {
        let r = Components { kinds: Vec::new(), columns: Vec::new(), slots: std::collections::HashMap::new() };
        proof {
            broadcast use vstd::std_specs::hash::group_hash_axioms;
            assert(r.slots@ == Map::<ComponentKind, usize>::empty());
        }
        r
    }

    /// Position of `kind` in the registry.
    fn find(&self, kind: ComponentKind) -> (r: Option<usize>)
        requires
            self.wf(),
        ensures
            r == (if self.registered(kind) {
                Some(self.slot(kind) as usize)
            } else {
                None::<usize>
            }),
    {
        proof {
            broadcast use vstd::std_specs::hash::group_hash_axioms;
        }
        match self.slots.get(&kind) {
            Some(i) => {
                proof {
                    self.lemma_slot(kind);
                }
                Some(*i)
            },
            None => None,
        }
    }

    /// Adds `storage` as the column of `kind`, in the next free slot.
    ///
    /// A kind that is already registered keeps its column, and `storage` is dropped.
    pub fn insert_column(&mut self, kind: ComponentKind, storage: SparseSet<C>) -> (r: Result<(), EcsError>)
        requires
            old(self).wf(),
            storage.wf(),
        ensures
            final(self).wf(),
            old(self).registered(kind) ==> r == Ok::<(), EcsError>(()) && *final(self) == *old(self),
            !old(self).registered(kind) && old(self).kinds().len() == 64 ==> r == Err::<(), EcsError>(EcsError::CapacityExceeded) && *final(self) == *old(self),
            !old(self).registered(kind) && old(self).kinds().len() < 64 ==> {
                &&& r == Ok::<(), EcsError>(())
                &&& final(self).kinds() == old(self).kinds().push(kind)
                &&& final(self).columns() == old(self).columns().push(storage)
            },
    {
        if self.find(kind).is_some() {
            return Ok(());
        }
        if self.kinds.len() == COMPONENTS_MASK_SIZE {
            return Err(EcsError::CapacityExceeded);
        }
        let ghost pre = *self;
        let slot = self.kinds.len();
        self.kinds.push(kind);
        self.columns.push(storage);
        self.slots.insert(kind, slot);
        proof {
            broadcast use vstd::std_specs::hash::group_hash_axioms;
            assert forall|k: ComponentKind| #[trigger] self.slots@.contains_key(k) <==> self.kinds@.contains(k) by {
                if k != kind && self.kinds@.contains(k) {
                    let j = choose|j: int| 0 <= j < self.kinds@.len() && self.kinds@[j] == k;
                    assert(pre.kinds@[j] == k);
                }
                if k != kind && pre.slots@.contains_key(k) {
                    let j = pre.slots@[k] as int;
                    assert(self.kinds@[j] == k);
                }
                if k == kind {
                    assert(self.kinds@[slot as int] == k);
                }
            }
            assert forall|k: ComponentKind| #[trigger] self.slots@.contains_key(k) implies self.slots@[k] < self.kinds@.len() && self.kinds@[self.slots@[k] as int] == k by {
                if k != kind {
                    assert(pre.slots@.contains_key(k));
                }
            }
            assert forall|a: int, b: int| 0 <= a < b < self.kinds@.len() implies self.kinds@[a] != self.kinds@[b] by {
                if b == slot as int {
                    assert(pre.kinds@[a] == self.kinds@[a]);
                    assert(pre.kinds@.contains(self.kinds@[a]));
                } else {
                    assert(pre.kinds@.no_duplicates());
                }
            }
        }
        Ok(())
    }

    /// Registers `kind` with an empty column if it has none yet.
    pub fn lazy_register(&mut self, kind: ComponentKind) -> (r: Result<(), EcsError>)
        requires
            old(self).wf(),
        ensures
            final(self).wf(),
            old(self).registered(kind) ==> r == Ok::<(), EcsError>(()) && *final(self) == *old(self),
            !old(self).registered(kind) && old(self).kinds().len() == 64 ==> r == Err::<(), EcsError>(EcsError::CapacityExceeded) && *final(self) == *old(self),
            !old(self).registered(kind) && old(self).kinds().len() < 64 ==> {
                &&& r == Ok::<(), EcsError>(())
                &&& final(self).kinds() == old(self).kinds().push(kind)
                &&& final(self).columns().len() == old(self).columns().len() + 1
                &&& final(self).columns().drop_last() == old(self).columns()
                &&& final(self).columns().last()@ == Map::<usize, C>::empty()
            },
    {
        self.insert_column(kind, SparseSet::new())
    }

    /// The column of a registered kind.
    pub fn borrow_storage_of(&self, kind: ComponentKind) -> (r: &SparseSet<C>)
        requires
            self.wf(),
            self.registered(kind),
        ensures
            *r == self.columns()[self.slot(kind)],
            r.wf(),
    {
        let i = self.find(kind).unwrap();
        &self.columns[i]
    }

    /// The column of a registered kind, for writing.
    pub fn borrow_storage_mut_of(&mut self, kind: ComponentKind) -> (r: &mut SparseSet<C>)
        requires
            old(self).wf(),
            old(self).registered(kind),
        ensures
            *r == old(self).columns()[old(self).slot(kind)],
            r.wf(),
            final(self).kinds() == old(self).kinds(),
            final(self).columns() == old(self).columns().update(old(self).slot(kind), *final(r)),
            final(self).index_ok(),
    {
        let i = self.find(kind).unwrap();
        &mut self.columns[i]
    }

    /// The mask bit of `kind`, or no bit for an unregistered kind.
    pub fn mask_of(&self, kind: ComponentKind) -> (r: ComponentsMask)
        requires
            self.wf(),
        ensures
            r == (if self.registered(kind) {
                bit(self.slot(kind) as u64)
            } else {
                0
            }),
    {
        match self.find(kind) {
            Some(i) => 1u64 << (i as u64),
            None => 0,
        }
    }

    /// The registered kinds, by slot.
    pub fn registered_kinds(&self) -> (r: &Vec<ComponentKind>)
        ensures
            r@ == self.kinds(),
    {
        &self.kinds
    }

    /// The column in slot `i`.
    pub fn column_at(&self, i: usize) -> (r: &SparseSet<C>)
        requires
            i < self.columns().len(),
        ensures
            *r == self.columns()[i as int],
    {
        &self.columns[i]
    }

    /// Removes entity `index` from the column of every kind whose bit is set in `entity_mask`.
    pub fn remove_all(&mut self, entity_mask: ComponentsMask, entity_index: usize)
        requires
            old(self).wf(),
            forall|b: u64| #[trigger] has_bit(entity_mask, b) ==> b < old(self).kinds().len(),
        ensures
            final(self).wf(),
            final(self).kinds() == old(self).kinds(),
            final(self).columns().len() == old(self).columns().len(),
            forall|i: int|
                0 <= i < old(self).columns().len() ==> #[trigger] final(self).columns()[i]@ == if has_bit(
                    entity_mask,
                    i as u64,
                ) {
                    old(self).columns()[i]@.remove(entity_index)
                } else {
                    old(self).columns()[i]@
                },
    {
        let ghost pre = *self;
        let mut i: usize = 0;
        while i < COMPONENTS_MASK_SIZE
            invariant
                i <= 64,
                self.wf(),
                self.kinds() == pre.kinds(),
                self.columns().len() == pre.columns().len(),
                forall|b: u64| #[trigger] has_bit(entity_mask, b) ==> b < pre.kinds().len(),
                forall|j: int|
                    0 <= j < pre.columns().len() ==> #[trigger] self.columns()[j]@ == if j < i && has_bit(
                        entity_mask,
                        j as u64,
                    ) {
                        pre.columns()[j]@.remove(entity_index)
                    } else {
                        pre.columns()[j]@
                    },
            decreases 64 - i,
        {
            proof {
                lemma_bit_test(entity_mask, i as u64);
            }
            if entity_mask & (1u64 << (i as u64)) != 0 {
                let column = &mut self.columns[i];
                column.remove(entity_index);
            }
            i += 1;
        }
    }
}

} // verus!
