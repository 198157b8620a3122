use tilepool::Entity;
use tilepool::KeyMessage;
use tilepool::Pos;
use tilepool::Unit;
use tilepool::World;
use tilepool::WorldPool;
use tilepool::keys::handle;

#[test]
fn test_worldpool() {
    let mut pool = WorldPool::default();
    let pos = Pos::new(3, 4);
    let entity = Entity::from(Box::new(Unit));

    //Fill `pos` in `pool`.
    if let Err(_) = pool.add_to(pos, entity.clone()) {
        //There was an error while inserting into `pool`.
        panic!("`WorldPool::add_to` failed.")
    }
    //Check the insertion succeeded.
    assert_ne!(pool.get(&pos), None, "`WorldPool::add_to` failed to insert the `Entity`.");

    //Attempt to move into occupied `pos`.
    match pool.move_to(pos, entity.clone()) {
        //There should have been a combat initiated.
        Ok(_) => panic!("`WorldPool::move_to` failed to initiate `Combat`."),
        //Combat was initiated, resolve it.
        Err(lock) => assert!(lock.resolve(&mut pool), "`WorldPool::move_to` combat failed."),
    }

    //Remove the `Entity` from `pos`.
    if let None = pool.remove_from(&pos) {
        //There was nothing to remove.
        panic!("`WorldPool::remove_from` failed.")
    }
}

#[test]
fn test_worldpool_add_occupied() {
    let mut pool = WorldPool::default();
    let entity = Entity::from(Box::new(Unit));
    // (0, 0) is occupied in the default world
    match pool.add_to(Pos::new(0, 0), entity.clone()) {
        Err(returned) => assert_eq!(returned, entity),
        Ok(()) => panic!("insertion into an occupied position succeeded"),
    }
    assert_eq!(pool.len(), 3);
}

#[test]
fn test_combat_attacker_wins() {
    let mut pool = WorldPool::default();
    let attacker = Entity::from(Box::new(Unit));
    let dest = Pos::new(0, 3);
    match pool.move_to(dest, attacker) {
        Ok(()) => panic!("a move onto an occupied position skipped combat"),
        Err(combat) => assert!(combat.resolve(&mut pool)),
    }
    // the attacker now holds the position; nothing else moved
    assert_eq!(pool.len(), 3);
    assert!(pool.get(&dest).is_some());
    assert!(pool.get(&Pos::new(0, 0)).is_some());
    assert!(pool.get(&Pos::new(3, 2)).is_some());
}

#[test]
fn test_world_snapshot() {
    let mut world = World::new(WorldPool::default());
    let state = world.update();
    assert_eq!(state.len(), 3);
    assert!(state.contains(&(Pos::new(0, 0), b'U')));
    assert!(state.contains(&(Pos::new(0, 3), b'U')));
    assert!(state.contains(&(Pos::new(3, 2), b'U')));
}

#[test]
fn test_entity_byte() {
    assert_eq!(Entity::from(Box::new(Unit)).as_byte(), b'U');
}

#[test]
fn test_handle_keys() {
    assert_eq!(handle(b'='), Some(KeyMessage::Exit));
    assert_eq!(handle(b'w'), Some(KeyMessage::MoveCam(Pos::new(0, -1))));
    assert_eq!(handle(b's'), Some(KeyMessage::MoveCam(Pos::new(0, 1))));
    assert_eq!(handle(b'd'), Some(KeyMessage::MoveCam(Pos::new(1, 0))));
    assert_eq!(handle(b'a'), Some(KeyMessage::MoveCam(Pos::new(-1, 0))));
    assert_eq!(handle(b'x'), None);
}
