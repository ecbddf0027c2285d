use scenegraph::entity::{Entity, EntityRegistry};
use scenegraph::transform::{TransformError, TransformStore};

type Store = TransformStore<i32, i32>;

fn scene(n: usize) -> (EntityRegistry, Store, Vec<Entity>) {
    let mut reg = EntityRegistry::new();
    let mut store = Store::new();
    let mut es = Vec::new();
    for i in 0..n {
        let e = reg.spawn();
        assert_eq!(store.insert(&reg, e, i as i32, None), Ok(()));
        es.push(e);
    }
    (reg, store, es)
}

#[test]
fn insert_attaches_data_and_marks_dirty() {
    let mut reg = EntityRegistry::new();
    let mut store = Store::new();
    let e = reg.spawn();
    assert!(!store.contains(e));
    assert_eq!(store.insert(&reg, e, 42, None), Ok(()));
    assert!(store.contains(e));
    assert_eq!(store.get(&reg, e), Some(&42));
    assert_eq!(store.parent(&reg, e), None);
    assert!(store.is_dirty(&reg, e));
    assert_eq!(store.world_matrix(&reg, e), None);
}

#[test]
fn insert_rejects_dead_entity() {
    let mut reg = EntityRegistry::new();
    let mut store = Store::new();
    let e = reg.spawn();
    assert!(reg.despawn(e).is_ok());
    assert_eq!(store.insert(&reg, e, 1, None), Err(TransformError::DeadEntity));
    assert_eq!(
        store.insert(&reg, Entity::new(9, 0), 1, None),
        Err(TransformError::DeadEntity)
    );
    assert!(!store.contains(e));
}

#[test]
fn insert_rejects_dead_parent() {
    let mut reg = EntityRegistry::new();
    let mut store = Store::new();
    let p = reg.spawn();
    let c = reg.spawn();
    assert!(reg.despawn(p).is_ok());
    assert_eq!(store.insert(&reg, c, 1, Some(p)), Err(TransformError::DeadParent));
    assert!(!store.contains(c));
}

#[test]
fn insert_rejects_itself_as_parent() {
    let mut reg = EntityRegistry::new();
    let mut store = Store::new();
    let e = reg.spawn();
    assert_eq!(store.insert(&reg, e, 1, Some(e)), Err(TransformError::Cycle));
    assert!(!store.contains(e));
}

#[test]
fn insert_below_a_parent_records_the_link() {
    let (mut reg, mut store, es) = scene(1);
    let c = reg.spawn();
    assert_eq!(store.insert(&reg, c, 5, Some(es[0])), Ok(()));
    assert_eq!(store.parent(&reg, c), Some(es[0]));
    assert_eq!(store.children(es[0]), vec![c]);
}

#[test]
fn insert_again_replaces_local_and_parent() {
    let (reg, mut store, es) = scene(3);
    assert_eq!(store.set_parent(&reg, es[2], Some(es[1])), Ok(()));
    assert_eq!(store.insert(&reg, es[2], 77, Some(es[0])), Ok(()));
    assert_eq!(store.get(&reg, es[2]), Some(&77));
    assert_eq!(store.parent(&reg, es[2]), Some(es[0]));
    // Re-inserting an ancestor below its descendant is a cycle.
    assert_eq!(store.insert(&reg, es[0], 1, Some(es[2])), Err(TransformError::Cycle));
    assert_eq!(store.get(&reg, es[0]), Some(&0));
    assert_eq!(store.parent(&reg, es[0]), None);
}

#[test]
fn insert_into_reused_slot_drops_old_data() {
    let (mut reg, mut store, es) = scene(2);
    assert_eq!(store.set_parent(&reg, es[1], Some(es[0])), Ok(()));
    // es[0] dies, but its data is left in the store.
    assert!(reg.despawn(es[0]).is_ok());
    let fresh = reg.spawn();
    assert_eq!(fresh.index, es[0].index);
    assert_eq!(store.insert(&reg, fresh, 9, None), Ok(()));
    assert!(!store.contains(es[0]));
    assert!(store.contains(fresh));
    // The child of the old occupant became a root; it is no child of the new one.
    assert_eq!(store.parent(&reg, es[1]), None);
    assert!(store.children(fresh).is_empty());
}

#[test]
fn get_is_none_for_dead_or_unknown() {
    let (mut reg, store, es) = scene(1);
    let stranger = reg.spawn();
    assert_eq!(store.get(&reg, stranger), None);
    assert_eq!(store.world_matrix(&reg, stranger), None);
    assert!(reg.despawn(es[0]).is_ok());
    assert_eq!(store.get(&reg, es[0]), None);
    assert_eq!(store.parent(&reg, es[0]), None);
    assert!(!store.is_dirty(&reg, es[0]));
    // The data itself is still there until it is removed.
    assert!(store.contains(es[0]));
}

#[test]
fn get_mut_edits_without_marking_dirty() {
    let (reg, mut store, es) = scene(1);
    let to_matrix = |l: &i32| *l;
    let combine = |a: &i32, b: &i32| *a + *b;
    assert!(scenegraph::propagate::propagate(&mut store, to_matrix, combine).is_ok());
    assert!(!store.is_dirty(&reg, es[0]));
    *store.get_mut(&reg, es[0]).unwrap() = 5;
    assert_eq!(store.get(&reg, es[0]), Some(&5));
    assert!(!store.is_dirty(&reg, es[0]));
}

#[test]
fn get_mut_is_none_for_dead_or_unknown() {
    let (mut reg, mut store, es) = scene(1);
    let stranger = reg.spawn();
    assert!(store.get_mut(&reg, stranger).is_none());
    assert!(reg.despawn(es[0]).is_ok());
    assert!(store.get_mut(&reg, es[0]).is_none());
}

#[test]
fn mark_dirty_is_idempotent_and_silent_for_unknown() {
    let (mut reg, mut store, es) = scene(1);
    let to_matrix = |l: &i32| *l;
    let combine = |a: &i32, b: &i32| *a + *b;
    assert!(scenegraph::propagate::propagate(&mut store, to_matrix, combine).is_ok());
    store.mark_dirty(&reg, es[0]);
    assert!(store.is_dirty(&reg, es[0]));
    store.mark_dirty(&reg, es[0]);
    assert!(store.is_dirty(&reg, es[0]));
    let stranger = reg.spawn();
    store.mark_dirty(&reg, stranger);
    assert!(!store.contains(stranger));
    store.mark_dirty(&reg, Entity::new(100, 3));
    assert!(!store.contains(Entity::new(100, 3)));
}

#[test]
fn set_parent_links_and_marks_dirty() {
    let (reg, mut store, es) = scene(2);
    let to_matrix = |l: &i32| *l;
    let combine = |a: &i32, b: &i32| *a + *b;
    assert!(scenegraph::propagate::propagate(&mut store, to_matrix, combine).is_ok());
    assert_eq!(store.set_parent(&reg, es[1], Some(es[0])), Ok(()));
    assert_eq!(store.parent(&reg, es[1]), Some(es[0]));
    assert!(store.is_dirty(&reg, es[1]));
    assert!(!store.is_dirty(&reg, es[0]));
    assert_eq!(store.set_parent(&reg, es[1], None), Ok(()));
    assert_eq!(store.parent(&reg, es[1]), None);
}

#[test]
fn set_parent_rejects_cycle_and_changes_nothing() {
    let (reg, mut store, es) = scene(2);
    let (a, b) = (es[0], es[1]);
    assert_eq!(store.set_parent(&reg, a, Some(b)), Ok(()));
    let to_matrix = |l: &i32| *l;
    let combine = |x: &i32, y: &i32| *x + *y;
    assert!(scenegraph::propagate::propagate(&mut store, to_matrix, combine).is_ok());
    assert_eq!(store.set_parent(&reg, b, Some(a)), Err(TransformError::Cycle));
    assert_eq!(store.parent(&reg, a), Some(b));
    assert_eq!(store.parent(&reg, b), None);
    // The refused call marked nothing.
    assert!(!store.is_dirty(&reg, a));
    assert!(!store.is_dirty(&reg, b));
}

#[test]
fn set_parent_rejects_long_cycle() {
    let (reg, mut store, es) = scene(4);
    assert_eq!(store.set_parent(&reg, es[1], Some(es[0])), Ok(()));
    assert_eq!(store.set_parent(&reg, es[2], Some(es[1])), Ok(()));
    assert_eq!(store.set_parent(&reg, es[3], Some(es[2])), Ok(()));
    assert_eq!(store.set_parent(&reg, es[0], Some(es[3])), Err(TransformError::Cycle));
    assert_eq!(store.set_parent(&reg, es[0], Some(es[0])), Err(TransformError::Cycle));
    assert_eq!(store.parent(&reg, es[0]), None);
    // Moving a leaf elsewhere is no cycle.
    assert_eq!(store.set_parent(&reg, es[3], Some(es[0])), Ok(()));
    assert!(store.has_ancestor_or_self(es[3], es[0]));
    assert!(!store.has_ancestor_or_self(es[3], es[2]));
}

#[test]
fn set_parent_reports_each_failure() {
    let (mut reg, mut store, es) = scene(2);
    let bare = reg.spawn();
    assert_eq!(
        store.set_parent(&reg, bare, Some(es[0])),
        Err(TransformError::MissingTransform)
    );
    let gone = reg.spawn();
    assert!(reg.despawn(gone).is_ok());
    assert_eq!(store.set_parent(&reg, gone, None), Err(TransformError::DeadEntity));
    assert_eq!(store.set_parent(&reg, es[0], Some(gone)), Err(TransformError::DeadParent));
    assert_eq!(store.parent(&reg, es[0]), None);
}

#[test]
fn remove_discards_data_and_orphans_children() {
    let (reg, mut store, es) = scene(3);
    assert_eq!(store.set_parent(&reg, es[1], Some(es[0])), Ok(()));
    assert_eq!(store.set_parent(&reg, es[2], Some(es[0])), Ok(()));
    let to_matrix = |l: &i32| *l;
    let combine = |x: &i32, y: &i32| *x + *y;
    assert!(scenegraph::propagate::propagate(&mut store, to_matrix, combine).is_ok());
    assert!(store.remove(es[0]));
    assert!(!store.contains(es[0]));
    assert_eq!(store.get(&reg, es[0]), None);
    assert_eq!(store.parent(&reg, es[1]), None);
    assert_eq!(store.parent(&reg, es[2]), None);
    assert!(store.is_dirty(&reg, es[1]));
    assert!(store.is_dirty(&reg, es[2]));
    assert!(!store.remove(es[0]));
}

#[test]
fn children_are_listed_by_rising_index() {
    let (reg, mut store, es) = scene(5);
    assert_eq!(store.set_parent(&reg, es[4], Some(es[2])), Ok(()));
    assert_eq!(store.set_parent(&reg, es[0], Some(es[2])), Ok(()));
    assert_eq!(store.set_parent(&reg, es[3], Some(es[2])), Ok(()));
    assert_eq!(store.set_parent(&reg, es[1], Some(es[3])), Ok(()));
    assert_eq!(store.children(es[2]), vec![es[0], es[3], es[4]]);
    assert_eq!(store.children(es[3]), vec![es[1]]);
    assert!(store.children(es[1]).is_empty());
}
