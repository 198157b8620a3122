use tilepool::Entity;
use tilepool::Pos;
use tilepool::TilePool;
use tilepool::TilePoolError;
use tilepool::Unit;

fn unit() -> Entity {
    Entity::from(Box::new(Unit))
}

#[test]
fn test_tilepool() {
    let mut pool = TilePool::default().expect("`TilePool::default` failed.");
    let pos = Pos::new(3, 4);
    let entity = Box::new(Unit).into();

    if let Err((_, e)) = pool.add_to(&pos, entity) {
        panic!("`TilePool::add_to` failed: {:?}", e)
    }

    if let None = pool.remove_from(&pos) {
        panic!("`TilePool::remove_from` failed.")
    }
}

#[test]
fn test_connect_neighbours() {
    let input: Vec<Pos> = (0..6).map(|y| Pos::new(0, y)).collect();
    let out = TilePool::connect_neighbours(input.clone()).expect("distinct input refused");
    assert_eq!(out.len(), 6);
    for (i, (focus, nbrs)) in out.iter().enumerate() {
        assert_eq!(*focus, input[i]);
        assert_eq!(nbrs.len(), 5);
        assert!(!nbrs.contains(focus));
        for (j, p) in input.iter().enumerate() {
            if j != i {
                assert!(nbrs.contains(p));
            }
        }
    }
}

#[test]
fn test_repeated_neighbour() {
    let input = vec![
        Pos::new(0, 0),
        Pos::new(1, 1),
        Pos::new(2, 2),
        Pos::new(1, 1),
        Pos::new(4, 4),
        Pos::new(5, 5),
    ];
    match TilePool::connect_neighbours(input) {
        Err(TilePoolError::RepeatedNeighbour(p)) => assert_eq!(p, Pos::new(1, 1)),
        other => panic!("expected RepeatedNeighbour, got {:?}", other),
    }
}

#[test]
fn test_conversion_error() {
    match TilePool::connect_neighbours(vec![Pos::new(0, 0), Pos::new(0, 1)]) {
        Err(TilePoolError::ConversionError) => (),
        other => panic!("expected ConversionError, got {:?}", other),
    }
}

#[test]
fn test_too_few_tiles() {
    let pool = TilePool::new();
    match pool.calc_neighbours(Vec::new(), &Pos::new(1, 1)) {
        Err(TilePoolError::SizeError(n)) => assert_eq!(n, 0),
        other => panic!("expected SizeError, got {:?}", other),
    }
    let mut pool = TilePool::new();
    match pool.add_to(&Pos::new(1, 1), unit()) {
        Err((_, TilePoolError::SizeError(n))) => assert_eq!(n, 0),
        Err((_, other)) => panic!("expected SizeError, got {:?}", other),
        Ok(()) => panic!("placement on an empty pool succeeded"),
    }
}

#[test]
fn test_bootstrap_scenario() {
    let mut pool = TilePool::default().expect("`TilePool::default` failed.");
    assert_eq!(pool.len(), 6);
    // every seed cell tracks exactly the other five
    for y in 0..6 {
        let tile = pool.get(&Pos::new(0, y)).expect("seed tile missing");
        let nbrs = tile.get_neighbours();
        assert_eq!(nbrs.len(), 5);
        for other in 0..6 {
            let p = Pos::new(0, other);
            assert_eq!(nbrs.contains(&p), other != y);
        }
    }
    // a new occupant at (3, 4) gets the five existing cells nearest to it
    let pos = Pos::new(3, 4);
    pool.add_to(&pos, unit()).expect("`TilePool::add_to` failed.");
    let nbrs = pool.get(&pos).expect("new tile missing").get_neighbours();
    assert_eq!(nbrs.len(), 5);
    for y in 1..6 {
        assert!(nbrs.contains(&Pos::new(0, y)), "missing (0, {})", y);
    }
    assert!(!nbrs.contains(&Pos::new(0, 0)), "(0, 0) is the farthest and must be excluded");
}

#[test]
fn test_existing_position_keeps_stored_set() {
    let pool = TilePool::default().expect("`TilePool::default` failed.");
    // any seed, even a nonsensical one, is ignored for a position that
    // already has a tile: its stored set comes back
    let junk = vec![Pos::new(9, 9), Pos::new(9, 9)];
    let result = pool.calc_neighbours(junk, &Pos::new(0, 2)).expect("query failed");
    let stored = pool.get(&Pos::new(0, 2)).expect("seed tile missing").get_neighbours();
    assert_eq!(&result, stored);
}

#[test]
fn test_placement_leaves_other_sets_alone() {
    let mut pool = TilePool::default().expect("`TilePool::default` failed.");
    pool.add_to(&Pos::new(3, 4), unit()).expect("`TilePool::add_to` failed.");
    // placement never resizes or rewrites existing tiles' sets
    for y in 0..6 {
        let nbrs = pool.get(&Pos::new(0, y)).expect("seed tile missing").get_neighbours();
        assert_eq!(nbrs.len(), 5);
        for other in 0..6 {
            assert_eq!(nbrs.contains(&Pos::new(0, other)), other != y);
        }
        assert!(!nbrs.contains(&Pos::new(3, 4)));
    }
}

#[test]
fn test_no_duplicates() {
    let mut pool = TilePool::default().expect("`TilePool::default` failed.");
    for &(x, y) in [(2, 1), (5, -2), (1, 7), (-3, -3), (4, 4)].iter() {
        pool.add_to(&Pos::new(x, y), unit()).expect("`TilePool::add_to` failed.");
    }
    for &(qx, qy) in [(1, 1), (-5, 0), (8, 8), (0, 2)].iter() {
        let query = Pos::new(qx, qy);
        let result = pool.calc_neighbours(Vec::new(), &query).expect("query failed");
        assert_eq!(result.len(), 5);
        for i in 0..5 {
            assert_ne!(result[i], query, "self-reference in the result");
            for j in (i + 1)..5 {
                assert_ne!(result[i], result[j], "duplicate in the result");
            }
        }
    }
}

#[test]
fn test_fixed_point_idempotence() {
    let mut pool = TilePool::default().expect("`TilePool::default` failed.");
    for &(x, y) in [(2, 1), (5, -2), (1, 7)].iter() {
        pool.add_to(&Pos::new(x, y), unit()).expect("`TilePool::add_to` failed.");
    }
    let query = Pos::new(10, 10);
    let first = pool.calc_neighbours(Vec::new(), &query).expect("query failed");
    let second = pool.calc_neighbours(first.clone(), &query).expect("query failed");
    assert_eq!(second, first, "feeding the result back changed it");
}

#[test]
fn test_matches_exhaustive_scan() {
    let mut pool = TilePool::default().expect("`TilePool::default` failed.");
    pool.add_to(&Pos::new(2, 1), unit()).expect("`TilePool::add_to` failed.");
    let query = Pos::new(1, 1);
    // a seed that reaches the whole pool: the late cell plus seed cells
    let seed = vec![Pos::new(2, 1), Pos::new(0, 4), Pos::new(0, 5), Pos::new(0, 0), Pos::new(0, 1)];
    let result = pool.calc_neighbours(seed, &query).expect("query failed");
    // the exhaustive answer: all pool members ordered by distance, then
    // by position for determinism
    let mut all: Vec<Pos> = pool.entry_slice().iter().map(|e| e.0).collect();
    all.sort_by_key(|p| (p.dist2_from(&query), p.x, p.y));
    assert_eq!(result.len(), 5);
    for p in all[..5].iter() {
        assert!(result.contains(p), "exhaustive scan found {:?}, the relaxation did not", p);
    }
}

#[test]
fn test_place_occupied() {
    let mut pool = TilePool::default().expect("`TilePool::default` failed.");
    let pos = Pos::new(3, 4);
    pool.add_to(&pos, unit()).expect("first placement failed");
    let second = unit();
    match pool.add_to(&pos, second.clone()) {
        Err((returned, TilePoolError::FilledTileError(p))) => {
            assert_eq!(returned, second, "the refused occupant came back changed");
            assert_eq!(p, pos);
        },
        other => panic!("expected FilledTileError, got {:?}", other),
    }
    // the first occupant remains retrievable unchanged
    assert_eq!(pool.remove_from(&pos), Some(unit()));
}

#[test]
fn test_vacate() {
    let mut pool = TilePool::default().expect("`TilePool::default` failed.");
    let missing = Pos::new(9, 9);
    assert_eq!(pool.remove_from(&missing), None);
    assert_eq!(pool.remove_from(&missing), None);
    // a tile with no occupant gives nothing either
    assert_eq!(pool.remove_from(&Pos::new(0, 2)), None);
    // place, vacate, vacate again
    let pos = Pos::new(3, 4);
    let entity = unit();
    pool.add_to(&pos, entity.clone()).expect("placement failed");
    assert_eq!(pool.remove_from(&pos), Some(entity));
    assert_eq!(pool.remove_from(&pos), None);
    // the tile itself stays
    assert!(pool.get(&pos).is_some());
}
