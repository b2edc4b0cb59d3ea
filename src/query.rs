//! Queries: live entities filtered by the component kinds they must and must not hold.
use vstd::prelude::*;

use crate::components::{slot_of, ComponentKind};
use crate::entities::{Entities, EntityId};
use crate::mask::{bit, has_bit, lemma_bit_single, lemma_covers, lemma_disjoint, lemma_or, lemma_zero, ComponentsMask};

verus! {

/// Whether an entity with mask `mask` passes the filter (`included`, `excluded`).
pub open spec fn mask_matches(mask: u64, included: u64, excluded: u64) -> bool {
    mask & included == included && mask & excluded == 0
}

/// A filter over the live entities of a store: the bits that must be set and those
/// that must be clear in an entity's mask.
pub struct BitQuery<'a, C> {
    ecs: &'a Entities<C>,
    included_mask: ComponentsMask,
    excluded_mask: ComponentsMask,
    included: Ghost<Set<ComponentKind>>,
    excluded: Ghost<Set<ComponentKind>>,
    /// Set once an included kind has no column: no entity can hold it.
    includes_unregistered: bool,
}

/// A live entity that a query selected, read through the store it lives in.
pub struct QueryEntity<'a, C> {
    id: EntityId,
    bitmask: ComponentsMask,
    ecs: &'a Entities<C>,
}

/// The mask whose bits are the registry slots of the registered kinds in `kinds`.
pub open spec fn mask_of_kinds(registry_kinds: Seq<ComponentKind>, kinds: Set<ComponentKind>, mask: u64) -> bool {
    forall|b: u64|
        #[trigger] has_bit(mask, b) <==> (b < registry_kinds.len() && kinds.contains(registry_kinds[b as int]))
}

impl<'a, C> BitQuery<'a, C> {
    pub closed spec fn world(&self) -> Entities<C> {
        *self.ecs
    }

    pub closed spec fn included_mask_spec(&self) -> u64 {
        self.included_mask
    }

    pub closed spec fn excluded_mask_spec(&self) -> u64 {
        self.excluded_mask
    }

    /// The kinds that a selected entity must hold.
    pub closed spec fn included_kinds(&self) -> Set<ComponentKind> {
        self.included@
    }

    /// Whether some included kind is unregistered, so that nothing is selected.
    pub closed spec fn blocked(&self) -> bool {
        self.includes_unregistered
    }

    /// The kinds that a selected entity must not hold.
    pub closed spec fn excluded_kinds(&self) -> Set<ComponentKind> {
        self.excluded@
    }

    pub open spec fn wf(&self) -> bool {
        &&& self.world().wf()
        &&& mask_of_kinds(self.world().registry().kinds(), self.included_kinds(), self.included_mask_spec())
        &&& mask_of_kinds(self.world().registry().kinds(), self.excluded_kinds(), self.excluded_mask_spec())
        &&& self.blocked() <==> exists|k: ComponentKind| #[trigger] self.included_kinds().contains(k) && !self.world().registry().registered(k)
    }

    /// Whether the query selects the live entity in slot `s`.
    pub open spec fn selects(&self, s: usize) -> bool {
        &&& !self.blocked()
        &&& self.world().slots().contains_key(s)
        &&& mask_matches(self.world().slots()[s].1, self.included_mask_spec(), self.excluded_mask_spec())
    }

    /// The query that selects every live entity of `ecs`.
    pub fn new(ecs: &'a Entities<C>) -> (r: Self)
        requires
            ecs.wf(),
        ensures
            r.wf(),
            r.world() == *ecs,
            r.included_kinds() == Set::<ComponentKind>::empty(),
            r.excluded_kinds() == Set::<ComponentKind>::empty(),
            r.included_mask_spec() == 0,
            r.excluded_mask_spec() == 0,
            !r.blocked(),
    {
        proof {
            assert forall|b: u64| !has_bit(0, b) by {
                lemma_zero(b);
            }
        }
        BitQuery {
            ecs,
            included_mask: 0,
            excluded_mask: 0,
            included: Ghost(Set::empty()),
            excluded: Ghost(Set::empty()),
            includes_unregistered: false,
        }
    }

    proof fn lemma_add_kind(registry: Seq<ComponentKind>, kinds: Set<ComponentKind>, mask: u64, kind: ComponentKind, kind_mask: u64)
        requires
            registry.len() <= 64,
            registry.no_duplicates(),
            mask_of_kinds(registry, kinds, mask),
            kind_mask == (if registry.contains(kind) {
                bit(slot_of(registry, kind) as u64)
            } else {
                0
            }),
        ensures
            mask_of_kinds(registry, kinds.insert(kind), mask | kind_mask),
    {
        assert forall|b: u64| #[trigger] has_bit(mask | kind_mask, b) <==> (b < registry.len() && kinds.insert(kind).contains(registry[b as int])) by {
            lemma_or(mask, kind_mask, b);
            if registry.contains(kind) {
                let j = slot_of(registry, kind);
                lemma_bit_single(j as u64, b);
                if b < registry.len() && registry[b as int] == kind {
                    assert(b as int == j);
                }
            } else {
                lemma_zero(b);
                if b < registry.len() && registry[b as int] == kind {
                    assert(registry.contains(kind));
                }
            }
        }
    }

    /// Narrows the query to entities that hold `kind`. No entity holds an unregistered
    /// kind, so naming one leaves the query selecting nothing.
    pub fn with(self, kind: ComponentKind) -> (r: Self)
        requires
            self.wf(),
        ensures
            r.wf(),
            r.blocked() == (self.blocked() || !self.world().registry().registered(kind)),
            !self.world().registry().registered(kind) ==> forall|s: usize| !r.selects(s),
            r.world() == self.world(),
            r.included_kinds() == self.included_kinds().insert(kind),
            r.excluded_kinds() == self.excluded_kinds(),
            r.included_mask_spec() == self.included_mask_spec() | self.world().registry().mask_spec(kind),
            r.excluded_mask_spec() == self.excluded_mask_spec(),
    {
        let kind_mask = self.ecs.registry_mask_of(kind);
        proof {
            Self::lemma_add_kind(self.world().registry().kinds(), self.included@, self.included_mask, kind, kind_mask);
            let reg = self.world().registry();
            if reg.registered(kind) {
                reg.lemma_slot(kind);
                let j = reg.slot(kind) as u64;
                lemma_bit_single(j, j);
                lemma_zero(j);
            }
        }
        let r = BitQuery {
            ecs: self.ecs,
            included_mask: self.included_mask | kind_mask,
            excluded_mask: self.excluded_mask,
            included: Ghost(self.included@.insert(kind)),
            excluded: self.excluded,
            includes_unregistered: self.includes_unregistered || kind_mask == 0,
        };
        proof {
            let reg = self.world().registry();
            if !reg.registered(kind) {
                assert(r.included_kinds().contains(kind));
            }
            if self.blocked() {
                let k = choose|k: ComponentKind| #[trigger] self.included_kinds().contains(k) && !reg.registered(k);
                assert(r.included_kinds().contains(k));
            }
            if r.blocked() == false {
                assert forall|k: ComponentKind| #[trigger] r.included_kinds().contains(k) implies reg.registered(k) by {
                    if k != kind {
                        assert(self.included_kinds().contains(k));
                    }
                }
            }
        }
        r
    }

    /// Narrows the query to entities that do not hold `kind`. An unregistered kind adds
    /// no bit.
    pub fn without(self, kind: ComponentKind) -> (r: Self)
        requires
            self.wf(),
        ensures
            r.wf(),
            r.world() == self.world(),
            r.included_kinds() == self.included_kinds(),
            r.excluded_kinds() == self.excluded_kinds().insert(kind),
            r.blocked() == self.blocked(),
            r.included_mask_spec() == self.included_mask_spec(),
            r.excluded_mask_spec() == self.excluded_mask_spec() | self.world().registry().mask_spec(kind),
    {
        let kind_mask = self.ecs.registry_mask_of(kind);
        proof {
            Self::lemma_add_kind(self.world().registry().kinds(), self.excluded@, self.excluded_mask, kind, kind_mask);
        }
        let r = BitQuery {
            ecs: self.ecs,
            included_mask: self.included_mask,
            excluded_mask: self.excluded_mask | kind_mask,
            included: self.included,
            excluded: Ghost(self.excluded@.insert(kind)),
            includes_unregistered: self.includes_unregistered,
        };
        proof {
            assert(r.included_kinds() == self.included_kinds());
            assert(r.world() == self.world());
            if self.blocked() {
                let k = choose|k: ComponentKind| #[trigger] self.included_kinds().contains(k) && !self.world().registry().registered(k);
                assert(r.included_kinds().contains(k));
            }
        }
        r
    }

    /// Whether an entity with mask `mask` passes the filter.
    pub fn matches(&self, mask: ComponentsMask) -> (r: bool)
        ensures
            r == (!self.blocked() && mask_matches(mask, self.included_mask_spec(), self.excluded_mask_spec())),
    {
        !self.includes_unregistered && mask & self.included_mask == self.included_mask && mask & self.excluded_mask == 0
    }

    /// The selected live entities, by increasing slot.
    pub fn iter(&self) -> (r: Vec<QueryEntity<'a, C>>)
        requires
            self.wf(),
        ensures
            forall|k: int|
                0 <= k < r@.len() ==> {
                    let e = #[trigger] r@[k];
                    &&& self.world().is_live(e.id_spec())
                    &&& self.selects(e.id_spec().index)
                    &&& e.mask_spec() == self.world().slots()[e.id_spec().index].1
                    &&& e.world() == self.world()
                },
            forall|k: int, l: int| 0 <= k < l < r@.len() ==> r@[k].id_spec().index < r@[l].id_spec().index,
            forall|s: usize| #[trigger] self.selects(s) ==> exists|k: int| 0 <= k < r@.len() && r@[k].id_spec().index == s,
    {
        let entries = self.ecs.slot_entries();
        let mut r: Vec<QueryEntity<'a, C>> = Vec::new();
        let mut i: usize = 0;
        while i < entries.len()
            invariant
                self.wf(),
                i <= entries@.len(),
                forall|k: int|
                    0 <= k < entries@.len() ==> {
                        let (s, g, m) = #[trigger] entries@[k];
                        self.world().slots().contains_key(s) && self.world().slots()[s] == (g, m)
                    },
                forall|k: int, l: int| 0 <= k < l < entries@.len() ==> entries@[k].0 < entries@[l].0,
                forall|s: usize| #[trigger] self.world().slots().contains_key(s) ==> exists|k: int| 0 <= k < entries@.len() && entries@[k].0 == s,
                forall|k: int|
                    0 <= k < r@.len() ==> {
                        let e = #[trigger] r@[k];
                        &&& self.world().is_live(e.id_spec())
                        &&& self.selects(e.id_spec().index)
                        &&& e.mask_spec() == self.world().slots()[e.id_spec().index].1
                        &&& e.world() == self.world()
                    },
                forall|k: int| 0 <= k < r@.len() ==> exists|l: int| 0 <= l < i && entries@[l].0 == #[trigger] r@[k].id_spec().index,
                forall|k: int, l: int| 0 <= k < l < r@.len() ==> r@[k].id_spec().index < r@[l].id_spec().index,
                forall|l: int| 0 <= l < i && #[trigger] self.selects(entries@[l].0) ==> exists|k: int| 0 <= k < r@.len() && r@[k].id_spec().index == entries@[l].0,
            decreases entries@.len() - i,
        {
            let (index, generation, mask) = entries[i];
            if self.matches(mask) {
                let ghost before = r@;
                proof {
                    assert forall|k: int| 0 <= k < before.len() implies before[k].id_spec().index < index by {
                        let l = choose|l: int| 0 <= l < i && entries@[l].0 == #[trigger] before[k].id_spec().index;
                        assert(entries@[l].0 < entries@[i as int].0);
                    }
                }
                r.push(QueryEntity { id: EntityId { index, generation }, bitmask: mask, ecs: self.ecs });
                proof {
                    assert forall|k: int| 0 <= k < r@.len() implies exists|l: int| 0 <= l < i + 1 && entries@[l].0 == #[trigger] r@[k].id_spec().index by {
                        if k < before.len() {
                            assert(r@[k] == before[k]);
                            let l = choose|l: int| 0 <= l < i && entries@[l].0 == #[trigger] before[k].id_spec().index;
                            assert(entries@[l].0 == r@[k].id_spec().index);
                        } else {
                            assert(entries@[i as int].0 == r@[k].id_spec().index);
                        }
                    }
                    assert forall|l: int| 0 <= l < i + 1 && #[trigger] self.selects(entries@[l].0) implies exists|k: int| 0 <= k < r@.len() && r@[k].id_spec().index == entries@[l].0 by {
                        if l < i {
                            let k = choose|k: int| 0 <= k < before.len() && before[k].id_spec().index == entries@[l].0;
                            assert(r@[k] == before[k]);
                        } else {
                            assert(r@[before.len() as int].id_spec().index == entries@[l].0);
                        }
                    }
                }
            } else {
                proof {
                    assert forall|l: int| 0 <= l < i + 1 && #[trigger] self.selects(entries@[l].0) implies exists|k: int| 0 <= k < r@.len() && r@[k].id_spec().index == entries@[l].0 by {
                        if l == i {
                            assert(!self.selects(entries@[l].0));
                        }
                    }
                }
            }
            i += 1;
        }
        proof {
            assert forall|s: usize| #[trigger] self.selects(s) implies exists|k: int| 0 <= k < r@.len() && r@[k].id_spec().index == s by {
                let l = choose|l: int| 0 <= l < entries@.len() && entries@[l].0 == s;
                assert(self.selects(entries@[l].0));
            }
        }
        r
    }
}

impl<'a, C> QueryEntity<'a, C> {
    pub closed spec fn id_spec(&self) -> EntityId {
        self.id
    }

    pub closed spec fn mask_spec(&self) -> u64 {
        self.bitmask
    }

    pub closed spec fn world(&self) -> Entities<C> {
        *self.ecs
    }

    pub fn id(&self) -> (r: EntityId)
        ensures
            r == self.id_spec(),
    {
        self.id
    }

    /// The component mask the entity had when it was selected.
    pub fn mask(&self) -> (r: ComponentsMask)
        ensures
            r == self.mask_spec(),
    {
        self.bitmask
    }

    /// Whether the entity holds a value of `kind`.
    pub fn has(&self, kind: ComponentKind) -> (r: bool)
        requires
            self.world().wf(),
        ensures
            r == self.world().has_value(self.id_spec(), kind),
    {
        self.ecs.has(self.id, kind)
    }

    /// The entity's value of `kind`.
    pub fn get(&self, kind: ComponentKind) -> (r: Option<&'a C>)
        requires
            self.world().wf(),
        ensures
            r == (if self.world().has_value(self.id_spec(), kind) {
                Some(&self.world().registry().column_of(kind)[self.id_spec().index])
            } else {
                None::<&C>
            }),
    {
        self.ecs.get(self.id, kind)
    }
}

impl<C> Entities<C> {
    /// The query that selects every live entity.
    pub fn query(&self) -> (r: BitQuery<'_, C>)
        requires
            self.wf(),
        ensures
            r.wf(),
            r.world() == *self,
            r.included_kinds() == Set::<ComponentKind>::empty(),
            r.excluded_kinds() == Set::<ComponentKind>::empty(),
            forall|s: usize| r.selects(s) == self.slots().contains_key(s),
    {
        let q = BitQuery::new(self);
        proof {
            assert forall|m: u64| mask_matches(m, 0, 0) by {
                assert(m & 0 == 0) by (bit_vector);
            }
        }
        q
    }

    /// The query of the entities that hold `kind`.
    pub fn with(&self, kind: ComponentKind) -> (r: BitQuery<'_, C>)
        requires
            self.wf(),
        ensures
            r.wf(),
            r.world() == *self,
            r.included_kinds() == set![kind],
            r.excluded_kinds() == Set::<ComponentKind>::empty(),
            forall|s: usize| #[trigger] r.selects(s) == (self.slots().contains_key(s) && self.registry().column_of(kind).contains_key(s)),
    {
        let q = self.query();
        let r = q.with(kind);
        assert(r.included_kinds() =~= set![kind]);
        proof {
            assert forall|s: usize| #[trigger] r.selects(s) == (self.slots().contains_key(s) && self.registry().column_of(kind).contains_key(s)) by {
                if self.slots().contains_key(s) {
                    let id = EntityId { index: s, generation: self.slots()[s].0 };
                    lemma_selects_by_kinds(r, id);
                    assert(r.included_kinds().contains(kind));
                    assert(self.has_value(id, kind) == self.registry().column_of(kind).contains_key(s));
                    if self.registry().column_of(kind).contains_key(s) {
                        assert forall|k: ComponentKind| r.included_kinds().contains(k) implies #[trigger] self.has_value(id, k) by {
                            assert(k == kind);
                        }
                        assert forall|k: ComponentKind| r.excluded_kinds().contains(k) implies !#[trigger] self.has_value(id, k) by {
                            assert(!Set::<ComponentKind>::empty().contains(k));
                        }
                    }
                }
            }
        }
        r
    }

    /// The query of the entities that do not hold `kind`.
    pub fn without(&self, kind: ComponentKind) -> (r: BitQuery<'_, C>)
        requires
            self.wf(),
        ensures
            r.wf(),
            r.world() == *self,
            r.included_kinds() == Set::<ComponentKind>::empty(),
            r.excluded_kinds() == set![kind],
    {
        let r = self.query().without(kind);
        assert(r.excluded_kinds() =~= set![kind]);
        r
    }

    /// Every live entity, by increasing slot.
    pub fn iter(&self) -> (r: Vec<QueryEntity<'_, C>>)
        requires
            self.wf(),
        ensures
            forall|k: int|
                0 <= k < r@.len() ==> {
                    let e = #[trigger] r@[k];
                    &&& self.is_live(e.id_spec())
                    &&& e.mask_spec() == self.slots()[e.id_spec().index].1
                    &&& e.world() == *self
                },
            forall|k: int, l: int| 0 <= k < l < r@.len() ==> r@[k].id_spec().index < r@[l].id_spec().index,
            forall|s: usize| #[trigger] self.slots().contains_key(s) ==> exists|k: int| 0 <= k < r@.len() && r@[k].id_spec().index == s,
    {
        let q = self.query();
        let r = q.iter();
        proof {
            assert forall|s: usize| #[trigger] self.slots().contains_key(s) implies exists|k: int| 0 <= k < r@.len() && r@[k].id_spec().index == s by {
                assert(q.selects(s));
            }
        }
        r
    }
}

/// A live entity is selected by a query exactly when it holds a value of every kind
/// that the query includes, and of no kind that it excludes.
pub proof fn lemma_selects_by_kinds<C>(q: BitQuery<'_, C>, id: EntityId)
    requires
        q.wf(),
        q.world().is_live(id),
    ensures
        q.selects(id.index) <==> {
            &&& forall|k: ComponentKind|
                q.included_kinds().contains(k) ==> #[trigger] q.world().has_value(id, k)
            &&& forall|k: ComponentKind| q.excluded_kinds().contains(k) ==> !#[trigger] q.world().has_value(id, k)
        },
{
    let w = q.world();
    let reg = w.registry();
    let s = id.index;
    let m = w.slots()[s].1;
    let inc = q.included_mask_spec();
    let exc = q.excluded_mask_spec();
    lemma_covers(m, inc);
    lemma_disjoint(m, exc);
    if q.blocked() {
        let k = choose|k: ComponentKind| #[trigger] q.included_kinds().contains(k) && !reg.registered(k);
        assert(!w.has_value(id, k));
    } else {
        assert forall|k: ComponentKind| #[trigger] q.included_kinds().contains(k) implies reg.registered(k) by {}
    }
    let all_in = forall|k: ComponentKind|
        q.included_kinds().contains(k) && reg.registered(k) ==> #[trigger] w.has_value(id, k);
    let none_out = forall|k: ComponentKind| q.excluded_kinds().contains(k) ==> !#[trigger] w.has_value(id, k);
    if all_in {
        assert forall|b: u64| b < 64 && #[trigger] has_bit(inc, b) implies has_bit(m, b) by {
            let k = reg.kinds()[b as int];
            assert(reg.kinds().contains(k));
            reg.lemma_slot(k);
            assert(w.has_value(id, k));
            assert(w.column_holds(b, s));
        }
    }
    if m & inc == inc {
        assert forall|k: ComponentKind| q.included_kinds().contains(k) && reg.registered(k) implies #[trigger] w.has_value(id, k) by {
            reg.lemma_slot(k);
            let b = reg.slot(k) as u64;
            assert(has_bit(inc, b));
            assert(has_bit(m, b));
            assert(w.column_holds(b, s));
        }
    }
    if none_out {
        assert forall|b: u64| b < 64 && #[trigger] has_bit(exc, b) implies !has_bit(m, b) by {
            let k = reg.kinds()[b as int];
            assert(reg.kinds().contains(k));
            reg.lemma_slot(k);
            assert(!w.has_value(id, k));
        }
    }
    if m & exc == 0 {
        assert forall|k: ComponentKind| q.excluded_kinds().contains(k) implies !#[trigger] w.has_value(id, k) by {
            if reg.registered(k) {
                reg.lemma_slot(k);
                let b = reg.slot(k) as u64;
                assert(has_bit(exc, b));
                assert(!has_bit(m, b));
            }
        }
    }
}

} // verus!
