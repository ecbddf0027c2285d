use scenegraph::entity::{Entity, EntityRegistry, InvalidHandle};

#[test]
fn new_registry_has_no_slots() {
    let reg = EntityRegistry::new();
    assert_eq!(reg.slot_count(), 0);
    assert!(!reg.is_full());
    assert!(!reg.is_alive(Entity::new(0, 0)));
}

#[test]
fn spawn_grows_storage_in_order() {
    let mut reg = EntityRegistry::new();
    let a = reg.spawn();
    let b = reg.spawn();
    let c = reg.spawn();
    assert_eq!(a, Entity::new(0, 0));
    assert_eq!(b, Entity::new(1, 0));
    assert_eq!(c, Entity::new(2, 0));
    assert_eq!(reg.slot_count(), 3);
    assert!(reg.is_alive(a) && reg.is_alive(b) && reg.is_alive(c));
}

#[test]
fn despawn_bumps_generation_and_frees_slot() {
    let mut reg = EntityRegistry::new();
    let a = reg.spawn();
    assert_eq!(reg.despawn(a), Ok(()));
    assert!(!reg.is_alive(a));
    let again = reg.spawn();
    assert_eq!(again, Entity::new(0, 1));
    assert_eq!(reg.slot_count(), 1);
}

#[test]
fn spawn_takes_lowest_free_index() {
    let mut reg = EntityRegistry::new();
    let e: Vec<Entity> = (0..5).map(|_| reg.spawn()).collect();
    // Freed out of order: 3, then 1, then 4.
    assert!(reg.despawn(e[3]).is_ok());
    assert!(reg.despawn(e[1]).is_ok());
    assert!(reg.despawn(e[4]).is_ok());
    assert_eq!(reg.spawn(), Entity::new(1, 1));
    assert_eq!(reg.spawn(), Entity::new(3, 1));
    assert_eq!(reg.spawn(), Entity::new(4, 1));
    assert_eq!(reg.spawn(), Entity::new(5, 0));
}

#[test]
fn stale_handle_rejected_after_respawn() {
    let mut reg = EntityRegistry::new();
    let old = reg.spawn();
    assert!(reg.despawn(old).is_ok());
    let new = reg.spawn();
    assert_eq!(new.index, old.index);
    assert!(new.generation > old.generation);
    assert!(reg.is_alive(new));
    assert!(!reg.is_alive(old));
    assert_eq!(reg.despawn(old), Err(InvalidHandle));
    assert!(reg.is_alive(new));
}

#[test]
fn despawn_twice_reports_invalid_handle() {
    let mut reg = EntityRegistry::new();
    let a = reg.spawn();
    assert_eq!(reg.despawn(a), Ok(()));
    assert_eq!(reg.despawn(a), Err(InvalidHandle));
    // The failed despawn changed nothing: the slot is still handed out once.
    assert_eq!(reg.spawn(), Entity::new(0, 1));
    assert_eq!(reg.spawn(), Entity::new(1, 0));
}

#[test]
fn despawn_of_never_allocated_index_is_invalid() {
    let mut reg = EntityRegistry::new();
    let a = reg.spawn();
    assert_eq!(reg.despawn(Entity::new(7, 0)), Err(InvalidHandle));
    assert_eq!(reg.despawn(Entity::new(0, 5)), Err(InvalidHandle));
    assert!(reg.is_alive(a));
    assert_eq!(reg.slot_count(), 1);
}

#[test]
fn handle_with_future_generation_is_not_alive() {
    let mut reg = EntityRegistry::new();
    let a = reg.spawn();
    assert!(!reg.is_alive(Entity::new(a.index, a.generation + 1)));
}

#[test]
fn live_entities_never_share_an_index() {
    let mut reg = EntityRegistry::new();
    let mut live: Vec<Entity> = Vec::new();
    // A fixed walk through spawns and despawns.
    for step in 0u32..200 {
        if step % 3 == 2 && !live.is_empty() {
            let victim = live.remove((step as usize * 7) % live.len());
            assert!(reg.despawn(victim).is_ok());
            assert!(!reg.is_alive(victim));
        } else {
            let e = reg.spawn();
            assert!(live.iter().all(|l| l.index != e.index));
            live.push(e);
        }
        for (i, a) in live.iter().enumerate() {
            assert!(reg.is_alive(*a));
            for b in &live[i + 1..] {
                assert_ne!(a.index, b.index);
            }
        }
    }
}

#[test]
fn every_reuse_has_a_greater_generation() {
    let mut reg = EntityRegistry::new();
    let mut last = reg.spawn();
    let mut seen: Vec<Entity> = vec![last];
    for _ in 0..50 {
        assert!(reg.despawn(last).is_ok());
        let next = reg.spawn();
        assert_eq!(next.index, 0);
        assert!(next.generation > last.generation);
        last = next;
        seen.push(next);
    }
    for old in &seen[..seen.len() - 1] {
        assert!(!reg.is_alive(*old));
    }
    assert!(reg.is_alive(last));
}
