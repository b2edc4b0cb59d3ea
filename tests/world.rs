use sparse_ecs::{AliveEntityId, ComponentKind, Components, EcsError, Entities, EntityId, SparseSet};

#[derive(Clone, Copy, Debug, PartialEq)]
enum Comp {
    Position(i32, i32),
    Velocity(i32, i32),
    Health(u32),
}

const POSITION: ComponentKind = 1;
const VELOCITY: ComponentKind = 2;
const HEALTH: ComponentKind = 3;

fn ids(entities: Vec<sparse_ecs::QueryEntity<'_, Comp>>) -> Vec<EntityId> {
    entities.iter().map(|e| e.id()).collect()
}

/// A store with e1 with a position and a velocity, e2 with a position only.
fn moving_pair() -> (Entities<Comp>, EntityId, EntityId) {
    let mut w: Entities<Comp> = Entities::new();
    let e1 = w.spawn();
    w.set(e1, POSITION, Comp::Position(0, 0)).unwrap();
    w.set(e1, VELOCITY, Comp::Velocity(1, 1)).unwrap();
    let e2 = w.spawn();
    w.set(e2, POSITION, Comp::Position(5, 5)).unwrap();
    (w, e1, e2)
}

#[test]
fn queries_by_held_kinds() {
    let (w, e1, e2) = moving_pair();
    assert_eq!(ids(w.with(VELOCITY).iter()), vec![e1]);
    assert_eq!(ids(w.with(POSITION).without(VELOCITY).iter()), vec![e2]);
    assert_eq!(ids(w.iter()), vec![e1, e2]);
}

#[test]
fn despawn_hides_entity_from_reads_and_queries() {
    let (mut w, e1, e2) = moving_pair();
    assert!(w.despawn(e1));
    assert!(!w.is_present(e1));
    assert_eq!(w.get(e1, POSITION), None);
    assert_eq!(ids(w.with(POSITION).iter()), vec![e2]);
    assert_eq!(w.get(e2, POSITION), Some(&Comp::Position(5, 5)));
}

#[test]
fn save_then_load_restores_values() {
    let (mut w, e1, e2) = moving_pair();
    let state = w.save(&vec![POSITION, VELOCITY]).unwrap();
    let loaded = Entities::load(state);
    assert!(loaded.is_present(e1));
    assert!(loaded.is_present(e2));
    assert_eq!(loaded.get(e1, POSITION), Some(&Comp::Position(0, 0)));
    assert_eq!(loaded.get(e1, VELOCITY), Some(&Comp::Velocity(1, 1)));
    assert_eq!(loaded.get(e2, POSITION), Some(&Comp::Position(5, 5)));
    assert_eq!(loaded.get(e2, VELOCITY), None);
    assert_eq!(ids(loaded.with(VELOCITY).iter()), vec![e1]);
    assert_eq!(ids(loaded.with(POSITION).without(VELOCITY).iter()), vec![e2]);
}

#[test]
fn round_trip_keeps_gaps_and_generations() {
    let mut w: Entities<Comp> = Entities::new();
    let a = w.spawn();
    let b = w.spawn();
    let c = w.spawn();
    w.set(a, POSITION, Comp::Position(1, 2)).unwrap();
    w.set(c, POSITION, Comp::Position(3, 4)).unwrap();
    assert!(w.despawn(b));
    let mut loaded = Entities::load(w.save(&vec![POSITION]).unwrap());
    assert!(loaded.is_present(a));
    assert!(!loaded.is_present(b));
    assert!(loaded.is_present(c));
    assert_eq!(loaded.get(c, POSITION), Some(&Comp::Position(3, 4)));
    assert_eq!(loaded.generation(), w.generation());
    // the freed slot is reused with a new generation
    let d = loaded.spawn();
    assert_eq!(d.index, b.index);
    assert_ne!(d, b);
}

#[test]
fn generation_safety_on_reuse() {
    let mut w: Entities<Comp> = Entities::new();
    let old = w.spawn();
    w.set(old, HEALTH, Comp::Health(3)).unwrap();
    assert!(w.despawn(old));
    let new = w.spawn();
    assert_eq!(new.index, old.index);
    assert!(!w.is_present(old));
    assert!(w.is_present(new));
    assert_ne!(new, old);
    assert_eq!(w.get(new, HEALTH), None);
    assert_eq!(w.get(old, HEALTH), None);
}

#[test]
fn stale_ids_are_no_ops() {
    let mut w: Entities<Comp> = Entities::new();
    let e = w.spawn();
    w.set(e, POSITION, Comp::Position(1, 1)).unwrap();
    assert!(w.despawn(e));
    assert!(!w.despawn(e));
    assert_eq!(w.remove(e, POSITION), None);
    assert_eq!(w.set(e, POSITION, Comp::Position(2, 2)), Err(EcsError::Stale));
    assert!(!w.has(e, POSITION));
}

#[test]
fn set_overwrites_and_remove_detaches() {
    let mut w: Entities<Comp> = Entities::new();
    let e = w.spawn();
    w.set(e, HEALTH, Comp::Health(10)).unwrap();
    w.set(e, HEALTH, Comp::Health(7)).unwrap();
    assert_eq!(w.get(e, HEALTH), Some(&Comp::Health(7)));
    assert!(w.has(e, HEALTH));
    assert_eq!(w.remove(e, HEALTH), Some(Comp::Health(7)));
    assert!(!w.has(e, HEALTH));
    assert_eq!(w.get(e, HEALTH), None);
    assert_eq!(w.remove(e, HEALTH), None);
    assert!(w.with(HEALTH).iter().is_empty());
    assert_eq!(ids(w.without(HEALTH).iter()), vec![e]);
}

#[test]
fn get_mut_updates_value() {
    let mut w: Entities<Comp> = Entities::new();
    let e = w.spawn();
    w.set(e, VELOCITY, Comp::Velocity(0, 1)).unwrap();
    if let Some(v) = w.get_mut(e, VELOCITY) {
        *v = Comp::Velocity(2, 3);
    }
    assert_eq!(w.get(e, VELOCITY), Some(&Comp::Velocity(2, 3)));
    assert!(w.get_mut(e, POSITION).is_none());
}

#[test]
fn query_entity_reads_values() {
    let (w, e1, _e2) = moving_pair();
    let found = w.with(VELOCITY).iter();
    assert_eq!(found.len(), 1);
    assert_eq!(found[0].id(), e1);
    assert!(found[0].has(POSITION));
    assert_eq!(found[0].get(VELOCITY), Some(&Comp::Velocity(1, 1)));
    assert_eq!(found[0].mask(), 0b11);
}

#[test]
fn query_on_unregistered_kind() {
    let (w, e1, e2) = moving_pair();
    assert!(w.with(HEALTH).iter().is_empty());
    assert!(w.with(POSITION).with(HEALTH).iter().is_empty());
    assert!(w.query().with(HEALTH).without(VELOCITY).iter().is_empty());
    assert_eq!(ids(w.without(HEALTH).iter()), vec![e1, e2]);
}

#[test]
fn fresh_entity_is_not_in_with_queries() {
    let (mut w, e1, _e2) = moving_pair();
    let e3 = w.spawn();
    assert!(!ids(w.with(POSITION).iter()).contains(&e3));
    assert!(!ids(w.with(HEALTH).iter()).contains(&e3));
    assert!(ids(w.iter()).contains(&e3));
    assert!(w.is_present(e1));
}

#[test]
fn load_entity_leaves_other_entities_alone() {
    let (mut w, e1, e2) = moving_pair();
    let selection = vec![POSITION, VELOCITY];
    let saved = w.save_entity(&selection, e1);
    let n = w.load_entity(&selection, AliveEntityId(2), saved).unwrap();
    assert_eq!(n.index, 2);
    assert_eq!(w.get(n, POSITION), Some(&Comp::Position(0, 0)));
    assert_eq!(w.get(e1, POSITION), Some(&Comp::Position(0, 0)));
    assert_eq!(w.get(e1, VELOCITY), Some(&Comp::Velocity(1, 1)));
    assert_eq!(w.get(e2, POSITION), Some(&Comp::Position(5, 5)));
    assert_eq!(w.get(e2, VELOCITY), None);
    assert_eq!(ids(w.with(VELOCITY).iter()), vec![e1, n]);
}

#[test]
fn snapshot_exposes_its_contents() {
    let (mut w, e1, e2) = moving_pair();
    assert!(w.despawn(e1));
    let state = w.save(&vec![POSITION, VELOCITY]).unwrap();
    assert_eq!(state.entries(), vec![(e2.index, e2.generation, 0b01)]);
    assert_eq!(state.generation(), 1);
    let columns = state.saved_columns();
    assert_eq!(columns.len(), 2);
    assert_eq!(columns[0].get(e2.index), Some(&Comp::Position(5, 5)));
    assert_eq!(columns[1].len(), 0);
}

#[test]
fn capacity_exceeded_at_registration() {
    let mut w: Entities<u32> = Entities::new();
    let e = w.spawn();
    for k in 0..64u64 {
        w.set(e, k, k as u32).unwrap();
    }
    assert_eq!(w.set(e, 64, 0), Err(EcsError::CapacityExceeded));
    assert_eq!(w.register(100), Err(EcsError::CapacityExceeded));
    assert_eq!(w.register(5), Ok(()));
    assert_eq!(w.get(e, 63), Some(&63));
    assert_eq!(w.get(e, 64), None);
}

#[test]
fn registry_assigns_bits_in_order() {
    let mut c: Components<i32> = Components::new();
    assert_eq!(c.mask_of(9), 0);
    c.lazy_register(9).unwrap();
    c.lazy_register(4).unwrap();
    c.lazy_register(9).unwrap();
    assert_eq!(c.mask_of(9), 1);
    assert_eq!(c.mask_of(4), 2);
    assert_eq!(c.registered_kinds(), &vec![9, 4]);
    let mut s = SparseSet::new();
    s.set(0, 1);
    assert_eq!(c.insert_column(7, s), Ok(()));
    assert_eq!(c.mask_of(7), 4);
    assert_eq!(c.borrow_storage_of(7).get(0), Some(&1));
    c.borrow_storage_mut_of(4).set(2, 5);
    c.borrow_storage_mut_of(7).set(2, 6);
    c.remove_all(0b100, 2);
    assert_eq!(c.borrow_storage_of(4).get(2), Some(&5));
    assert_eq!(c.borrow_storage_of(7).get(2), None);
    assert_eq!(c.borrow_storage_of(7).get(0), Some(&1));
}

#[test]
fn save_refuses_mismatched_selection() {
    let (mut w, _e1, _e2) = moving_pair();
    assert!(matches!(w.save(&vec![VELOCITY, POSITION]), Err(EcsError::SelectionMismatch)));
    assert!(matches!(w.save(&vec![POSITION]), Err(EcsError::SelectionMismatch)));
    assert!(matches!(w.save(&vec![POSITION, VELOCITY, POSITION]), Err(EcsError::SelectionMismatch)));
    let state = w.save(&vec![POSITION, VELOCITY, HEALTH]).unwrap();
    assert_eq!(state.selection_kinds(), &vec![POSITION, VELOCITY, HEALTH]);
}

#[test]
fn save_refuses_oversized_selection() {
    let mut w: Entities<u32> = Entities::new();
    let selection: Vec<ComponentKind> = (0..65u64).collect();
    assert!(matches!(w.save(&selection), Err(EcsError::CapacityExceeded)));
}

#[test]
fn save_and_load_one_entity() {
    let (w, e1, e2) = moving_pair();
    let selection = vec![POSITION, VELOCITY];
    let saved1 = w.save_entity(&selection, e1);
    let saved2 = w.save_entity(&selection, e2);
    assert_eq!(saved1, vec![Some(Comp::Position(0, 0)), Some(Comp::Velocity(1, 1))]);
    assert_eq!(saved2, vec![Some(Comp::Position(5, 5)), None]);

    let mut fresh: Entities<Comp> = Entities::new();
    let n1 = fresh.load_entity(&selection, AliveEntityId::from(e1), saved1).unwrap();
    let n2 = fresh.load_entity(&selection, AliveEntityId::from(e2), saved2).unwrap();
    assert_eq!(fresh.get(n1, POSITION), Some(&Comp::Position(0, 0)));
    assert_eq!(fresh.get(n1, VELOCITY), Some(&Comp::Velocity(1, 1)));
    assert_eq!(fresh.get(n2, POSITION), Some(&Comp::Position(5, 5)));
    assert_eq!(fresh.get(n2, VELOCITY), None);
    assert_eq!(n1.index, e1.index);
    assert_eq!(n2.index, e2.index);
}

#[test]
fn load_entity_detects_desync() {
    let (w, _e1, e2) = moving_pair();
    let selection = vec![POSITION];
    let saved2 = w.save_entity(&selection, e2);
    let mut fresh: Entities<Comp> = Entities::new();
    // the fresh store puts its first entity in slot 0, not in e2's slot
    assert_eq!(
        fresh.load_entity(&selection, AliveEntityId::from(e2), saved2),
        Err(EcsError::Desync)
    );
}

#[test]
fn validate_finds_the_live_id() {
    let (mut w, e1, e2) = moving_pair();
    assert_eq!(AliveEntityId::from(e1).validate(&w), Some(e1));
    assert!(w.despawn(e2));
    assert_eq!(AliveEntityId::from(e2).validate(&w), None);
    assert_eq!(e1.spatial(), e1.index);
}
