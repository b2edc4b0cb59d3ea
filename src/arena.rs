//! The entity slot table: generational_arena's `Arena`, holding one mask per live entity.
//!
//! An arena is seen through two names: its live slots, each with the generation it was
//! filled under and the mask stored there, and the generation that its next insertion
//! receives. The arena counts generations globally: every successful removal raises
//! the counter, and every insertion stamps the slot with the current counter.
use vstd::prelude::*;

use generational_arena::{Arena, Index};

verus! {

#[verifier::external_type_specification]
#[verifier::external_body]
#[verifier::reject_recursive_types(T)]
pub struct ExArena<T>(Arena<T>);

/// The live slots of an arena: slot index to (generation, stored mask).
pub uninterp spec fn arena_slots(a: Arena<u64>) -> Map<usize, (u64, u64)>;

/// The generation that the arena stamps on its next insertion.
pub uninterp spec fn arena_generation(a: Arena<u64>) -> u64;

/// Relies on `Arena::new`: an empty arena whose generation counter starts at zero.
#[verifier::external_body]
pub(crate) fn arena_new() -> (r: Arena<u64>)
    ensures
        arena_slots(r).dom() == Set::<usize>::empty(),
        arena_generation(r) == 0,
{
    Arena::new()
}

/// Relies on `Arena::insert`: the value goes into a free slot, stamped with the current
/// generation, which is left as it was; the slot and generation come back.
#[verifier::external_body]
pub(crate) fn arena_insert(a: &mut Arena<u64>, value: u64) -> (r: (usize, u64))
    ensures
        !arena_slots(*old(a)).contains_key(r.0),
        r.1 == arena_generation(*old(a)),
        arena_slots(*final(a)) == arena_slots(*old(a)).insert(r.0, (r.1, value)),
        arena_generation(*final(a)) == arena_generation(*old(a)),
{
    a.insert(value).into_raw_parts()
}

/// Relies on `Arena::remove`: a live index frees its slot, returns its value and raises
/// the generation counter by one; any other index changes nothing.
#[verifier::external_body]
pub(crate) fn arena_remove(a: &mut Arena<u64>, slot: usize, generation: u64) -> (r: Option<u64>)
    requires
        arena_generation(*old(a)) < u64::MAX,
    ensures
        arena_slots(*old(a)).contains_key(slot) && arena_slots(*old(a))[slot].0 == generation ==> {
            &&& r == Some(arena_slots(*old(a))[slot].1)
            &&& arena_slots(*final(a)) == arena_slots(*old(a)).remove(slot)
            &&& arena_generation(*final(a)) == arena_generation(*old(a)) + 1
        },
        !(arena_slots(*old(a)).contains_key(slot) && arena_slots(*old(a))[slot].0 == generation) ==> {
            &&& r == None::<u64>
            &&& arena_slots(*final(a)) == arena_slots(*old(a))
            &&& arena_generation(*final(a)) == arena_generation(*old(a))
        },
{
    a.remove(Index::from_raw_parts(slot, generation))
}

/// Relies on `Arena::get`: the value under a live index, nothing for any other.
#[verifier::external_body]
pub(crate) fn arena_get(a: &Arena<u64>, slot: usize, generation: u64) -> (r: Option<u64>)
    ensures
        r == (if arena_slots(*a).contains_key(slot) && arena_slots(*a)[slot].0 == generation {
            Some(arena_slots(*a)[slot].1)
        } else {
            None::<u64>
        }),
{
    a.get(Index::from_raw_parts(slot, generation)).copied()
}

/// Relies on `Arena::get_unknown_gen`: the generation and value of a live slot.
#[verifier::external_body]
pub(crate) fn arena_get_unknown_gen(a: &Arena<u64>, slot: usize) -> (r: Option<(u64, u64)>)
    ensures
        r == (if arena_slots(*a).contains_key(slot) {
            Some(arena_slots(*a)[slot])
        } else {
            None::<(u64, u64)>
        }),
{
    a.get_unknown_gen(slot).map(|(m, i)| (i.into_raw_parts().1, *m))
}

/// Relies on `Arena`'s `IndexMut`: overwrites the value under a live index.
#[verifier::external_body]
pub(crate) fn arena_set(a: &mut Arena<u64>, slot: usize, generation: u64, value: u64)
    requires
        arena_slots(*old(a)).contains_key(slot),
        arena_slots(*old(a))[slot].0 == generation,
    ensures
        arena_slots(*final(a)) == arena_slots(*old(a)).insert(slot, (generation, value)),
        arena_generation(*final(a)) == arena_generation(*old(a)),
{
    a[Index::from_raw_parts(slot, generation)] = value;
}

/// Relies on `Arena`'s derived `Clone`: same slots, values and generation counter.
#[verifier::external_body]
pub(crate) fn arena_clone(a: &Arena<u64>) -> (r: Arena<u64>)
    ensures
        arena_slots(r) == arena_slots(*a),
        arena_generation(r) == arena_generation(*a),
{
    a.clone()
}

/// Relies on `Arena::iter`: every live slot once, as (slot, generation, value), by
/// increasing slot.
#[verifier::external_body]
pub(crate) fn arena_entries(a: &Arena<u64>) -> (r: Vec<(usize, u64, u64)>)
    ensures
        forall|k: int|
            0 <= k < r@.len() ==> {
                let (s, g, m) = #[trigger] r@[k];
                arena_slots(*a).contains_key(s) && arena_slots(*a)[s] == (g, m)
            },
        forall|k: int, l: int| 0 <= k < l < r@.len() ==> r@[k].0 < r@[l].0,
        forall|s: usize| #[trigger] arena_slots(*a).contains_key(s) ==> exists|k: int| 0 <= k < r@.len() && r@[k].0 == s,
{
    a.iter().map(|(i, m)| (i.into_raw_parts().0, i.into_raw_parts().1, *m)).collect()
}

} // verus!
