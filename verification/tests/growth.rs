use growth::WorldConfig;
use growth::chunk_managment::{
    camera_pos_to_chunk_pos, chunk_pos_to_world_pos, set_chunk_activity, spawn_chunk,
    spawn_chunks_around_camera, world_pos_to_chunk_pos, Chunk, ChunkManager, ChunkPos, ChunkState,
    ObserverPos, WorldPos,
};
use growth::tick;
use growth::tiles::{
    apply_events, Dirt, Tile, TileEvent, TileKind, TileModifierDesc, WorldNeighbors,
};

fn cfg4() -> WorldConfig {
    WorldConfig {
        chunk_w: 4,
        chunk_h: 4,
        tile_w: 1,
        tile_h: 1,
        sim_range: 6,
        spawn_range: 10,
    }
}

fn chunk_state(m: &ChunkManager, x: i64, y: i64) -> Option<ChunkState> {
    for e in m.spawned_chunks.iter() {
        if e.pos.x == x && e.pos.y == y {
            return Some(e.chunk.state);
        }
    }
    None
}

fn dirt_at(m: &ChunkManager, cfg: &WorldConfig, x: i64, y: i64) -> Option<Dirt> {
    match m.get(cfg, &WorldPos { x, y }) {
        Some(t) => match t.kind {
            TileKind::Dirt(d) => Some(d),
            _ => None,
        },
        None => None,
    }
}

fn dirt_tile(moisture: u8, nutrients: u8) -> Option<Tile> {
    Some(Tile {
        kind: TileKind::Dirt(Dirt {
            moisture,
            max_moisture: 255,
            nutrients,
            max_nutrients: 127,
        }),
    })
}

#[test]
fn transform_round_trip_negative() {
    let cfg = cfg4();
    let w = WorldPos { x: -5, y: 3 };
    let (c, t) = world_pos_to_chunk_pos(&cfg, &w);
    assert_eq!((c.x, c.y), (-2, 0));
    assert_eq!((t.x, t.y), (3, 3));
    let back = chunk_pos_to_world_pos(&cfg, &c, &t);
    assert_eq!((back.x, back.y), (-5, 3));
}

#[test]
fn transform_round_trip_boundary() {
    let cfg = cfg4();
    for x in -9i64..9 {
        for y in -9i64..9 {
            let w = WorldPos { x, y };
            let (c, t) = world_pos_to_chunk_pos(&cfg, &w);
            assert!(t.x < 4 && t.y < 4);
            let back = chunk_pos_to_world_pos(&cfg, &c, &t);
            assert_eq!((back.x, back.y), (x, y));
        }
    }
}

#[test]
fn camera_mapping_truncates_toward_zero() {
    let cfg = cfg4();
    let c = camera_pos_to_chunk_pos(&cfg, &ObserverPos { x: -5, y: 5 });
    assert_eq!((c.x, c.y), (-1, 1));
    let c = camera_pos_to_chunk_pos(&cfg, &ObserverPos { x: -3, y: 3 });
    assert_eq!((c.x, c.y), (0, 0));
}

#[test]
fn config_validation() {
    assert!(cfg4().validate());
    let bad = WorldConfig {
        sim_range: 10,
        spawn_range: 10,
        ..cfg4()
    };
    assert!(!bad.validate());
}

#[test]
fn create_tile_defaults() {
    let t = Tile::create_tile();
    match t.kind {
        TileKind::Dirt(d) => {
            assert_eq!(d.moisture(), 0);
            assert_eq!(d.max_moisture(), 255);
            assert_eq!(d.nutrients(), 0);
            assert_eq!(d.max_nutrients(), 127);
        }
        _ => panic!("fresh tile is dirt"),
    }
}

#[test]
fn registry_insert_get_remove() {
    let cfg = cfg4();
    let mut m = ChunkManager::new();
    let p = ChunkPos { x: 0, y: 0 };
    assert!(!m.contains_key(&p));
    let c = spawn_chunk(&cfg);
    assert_eq!(c.tiles.len(), 16);
    m.insert(p, c);
    assert!(m.contains_key(&p));
    let d = dirt_at(&m, &cfg, 1, 1).expect("tile exists");
    assert_eq!(d.moisture(), 0);
    assert!(m.get(&cfg, &WorldPos { x: 4, y: 0 }).is_none());
    let removed = m.remove(&p);
    assert!(removed.is_some());
    assert!(!m.contains_key(&p));
    assert!(m.get(&cfg, &WorldPos { x: 1, y: 1 }).is_none());
}

#[test]
fn neighbors_in_scan_order() {
    let n = WorldNeighbors::get_square_neighboring_positions(WorldPos { x: 0, y: 0 });
    let v = n.iter();
    let expected = [
        (-1, -1),
        (-1, 0),
        (-1, 1),
        (0, -1),
        (0, 1),
        (1, -1),
        (1, 0),
        (1, 1),
    ];
    assert_eq!(v.len(), 8);
    for (i, (x, y)) in expected.iter().enumerate() {
        assert_eq!((v[i].x, v[i].y), (*x, *y));
    }
}

#[test]
fn spawn_window_covers_four_chunks() {
    let cfg = cfg4();
    let mut m = ChunkManager::new();
    spawn_chunks_around_camera(&cfg, &mut m, &ObserverPos { x: 0, y: 0 });
    for x in -2i64..2 {
        assert_eq!(chunk_state(&m, x, 0), Some(ChunkState::Active));
    }
    assert_eq!(chunk_state(&m, 2, 0), None);
    assert_eq!(chunk_state(&m, -3, 0), None);
    assert_eq!(m.spawned_chunks.len(), 4);
}

#[test]
fn spawn_is_idempotent() {
    let cfg = cfg4();
    let mut m = ChunkManager::new();
    let obs = ObserverPos { x: 0, y: 0 };
    spawn_chunks_around_camera(&cfg, &mut m, &obs);
    set_chunk_activity(&cfg, &mut m, 0);
    let before: Vec<(i64, ChunkState)> = m
        .spawned_chunks
        .iter()
        .map(|e| (e.pos.x, e.chunk.state))
        .collect();
    spawn_chunks_around_camera(&cfg, &mut m, &obs);
    set_chunk_activity(&cfg, &mut m, 0);
    let after: Vec<(i64, ChunkState)> = m
        .spawned_chunks
        .iter()
        .map(|e| (e.pos.x, e.chunk.state))
        .collect();
    assert_eq!(before, after);
}

#[test]
fn sleep_and_wake_preserve_tiles() {
    let cfg = cfg4();
    let mut m = ChunkManager::new();
    spawn_chunks_around_camera(&cfg, &mut m, &ObserverPos { x: 0, y: 0 });
    // chunk -2 has anchor x = -8: distance 8 from the observer, beyond the
    // simulation range 6 but within the spawn range 10.
    set_chunk_activity(&cfg, &mut m, 0);
    assert_eq!(chunk_state(&m, -2, 0), Some(ChunkState::Dormant));
    // still registered, tiles intact
    assert!(dirt_at(&m, &cfg, -8, 0).is_some());
    // observer moves onto the chunk: it wakes without respawning
    set_chunk_activity(&cfg, &mut m, -8);
    assert_eq!(chunk_state(&m, -2, 0), Some(ChunkState::Active));
    assert!(dirt_at(&m, &cfg, -8, 0).is_some());
}

#[test]
fn despawn_removes_chunk_and_tiles() {
    let cfg = cfg4();
    let mut m = ChunkManager::new();
    spawn_chunks_around_camera(&cfg, &mut m, &ObserverPos { x: 0, y: 0 });
    // first pass with a far observer puts everything to sleep, second pass
    // despawns what lies beyond the spawn range
    set_chunk_activity(&cfg, &mut m, 40);
    assert_eq!(chunk_state(&m, -2, 0), Some(ChunkState::Dormant));
    set_chunk_activity(&cfg, &mut m, 40);
    assert_eq!(chunk_state(&m, -2, 0), None);
    assert!(m.get(&cfg, &WorldPos { x: -8, y: 0 }).is_none());
    assert!(m.get(&cfg, &WorldPos { x: -5, y: 3 }).is_none());
}

#[test]
fn local_conservation_between_active_and_dormant() {
    // two 1x1 chunks: an active source tile and a dormant sink tile
    let cfg = WorldConfig {
        chunk_w: 1,
        chunk_h: 1,
        tile_w: 1,
        tile_h: 1,
        sim_range: 100,
        spawn_range: 200,
    };
    let mut m = ChunkManager::new();
    m.insert(
        ChunkPos { x: 0, y: 0 },
        Chunk {
            state: ChunkState::Active,
            tiles: vec![dirt_tile(5, 3)],
        },
    );
    m.insert(
        ChunkPos { x: 1, y: 0 },
        Chunk {
            state: ChunkState::Dormant,
            tiles: vec![dirt_tile(0, 0)],
        },
    );
    let events = Dirt::simulate(&cfg, &m);
    assert_eq!(events.len(), 2);
    apply_events(&cfg, &mut m, &events);
    let src = dirt_at(&m, &cfg, 0, 0).unwrap();
    let snk = dirt_at(&m, &cfg, 1, 0).unwrap();
    assert_eq!((src.moisture(), src.nutrients()), (4, 2));
    assert_eq!((snk.moisture(), snk.nutrients()), (1, 1));
}

#[test]
fn conservation_clamps_at_floor_and_ceiling() {
    let cfg = WorldConfig {
        chunk_w: 1,
        chunk_h: 1,
        tile_w: 1,
        tile_h: 1,
        sim_range: 100,
        spawn_range: 200,
    };
    let mut m = ChunkManager::new();
    // source already empty, sink already full
    m.insert(
        ChunkPos { x: 0, y: 0 },
        Chunk {
            state: ChunkState::Active,
            tiles: vec![Some(Tile {
                kind: TileKind::Dirt(Dirt {
                    moisture: 0,
                    max_moisture: 255,
                    nutrients: 0,
                    max_nutrients: 127,
                }),
            })],
        },
    );
    m.insert(
        ChunkPos { x: 1, y: 0 },
        Chunk {
            state: ChunkState::Dormant,
            tiles: vec![Some(Tile {
                kind: TileKind::Dirt(Dirt {
                    moisture: 255,
                    max_moisture: 255,
                    nutrients: 127,
                    max_nutrients: 127,
                }),
            })],
        },
    );
    let events = Dirt::simulate(&cfg, &m);
    apply_events(&cfg, &mut m, &events);
    let src = dirt_at(&m, &cfg, 0, 0).unwrap();
    let snk = dirt_at(&m, &cfg, 1, 0).unwrap();
    assert_eq!((src.moisture(), src.nutrients()), (0, 0));
    assert_eq!((snk.moisture(), snk.nutrients()), (255, 127));
}

#[test]
fn symmetric_exchange_cancels() {
    // two adjacent simulated tiles trade one unit each way: summed before
    // clamping, the net change is zero on both sides
    let cfg = WorldConfig {
        chunk_w: 2,
        chunk_h: 1,
        tile_w: 1,
        tile_h: 1,
        sim_range: 100,
        spawn_range: 200,
    };
    let mut m = ChunkManager::new();
    m.insert(
        ChunkPos { x: 0, y: 0 },
        Chunk {
            state: ChunkState::Active,
            tiles: vec![dirt_tile(5, 5), dirt_tile(9, 9)],
        },
    );
    let events = Dirt::simulate(&cfg, &m);
    assert_eq!(events.len(), 4);
    apply_events(&cfg, &mut m, &events);
    let a = dirt_at(&m, &cfg, 0, 0).unwrap();
    let b = dirt_at(&m, &cfg, 1, 0).unwrap();
    assert_eq!((a.moisture(), a.nutrients()), (5, 5));
    assert_eq!((b.moisture(), b.nutrients()), (9, 9));
}

#[test]
fn apply_sums_before_clamping() {
    let cfg = WorldConfig {
        chunk_w: 1,
        chunk_h: 1,
        tile_w: 1,
        tile_h: 1,
        sim_range: 100,
        spawn_range: 200,
    };
    let mut m = ChunkManager::new();
    m.insert(
        ChunkPos { x: 0, y: 0 },
        Chunk {
            state: ChunkState::Active,
            tiles: vec![dirt_tile(0, 0)],
        },
    );
    // a subtract then an add on a tile at zero: clamping event by event
    // would leave 1; the algebraic sum is zero
    let events = vec![
        TileEvent::Subtract(
            WorldPos { x: 0, y: 0 },
            TileModifierDesc {
                moisture: 1,
                nutrients: 1,
            },
        ),
        TileEvent::Add(
            WorldPos { x: 0, y: 0 },
            TileModifierDesc {
                moisture: 1,
                nutrients: 1,
            },
        ),
    ];
    apply_events(&cfg, &mut m, &events);
    let d = dirt_at(&m, &cfg, 0, 0).unwrap();
    assert_eq!((d.moisture(), d.nutrients()), (0, 0));
}

#[test]
fn events_for_missing_targets_are_dropped() {
    let cfg = cfg4();
    let mut m = ChunkManager::new();
    m.insert(
        ChunkPos { x: 0, y: 0 },
        Chunk {
            state: ChunkState::Active,
            tiles: vec![dirt_tile(7, 7); 16],
        },
    );
    let events = vec![TileEvent::Add(
        WorldPos { x: 99, y: 99 },
        TileModifierDesc {
            moisture: 5,
            nutrients: 5,
        },
    )];
    apply_events(&cfg, &mut m, &events);
    let d = dirt_at(&m, &cfg, 0, 0).unwrap();
    assert_eq!((d.moisture(), d.nutrients()), (7, 7));
}

#[test]
fn scenario_streaming_world() {
    // chunk size 4x4, tile size 1x1, sim range 6, spawn range 10
    let cfg = cfg4();
    let mut m = ChunkManager::new();
    tick(&cfg, &mut m, &vec![ObserverPos { x: 0, y: 0 }]);
    for x in -2i64..2 {
        assert!(chunk_state(&m, x, 0).is_some());
    }
    // chunk -2 (anchor x = -8, distance 8) is already beyond the
    // simulation range and went dormant in the same tick
    assert_eq!(chunk_state(&m, -2, 0), Some(ChunkState::Dormant));
    assert_eq!(chunk_state(&m, 1, 0), Some(ChunkState::Active));
    // observer jumps to x = 40
    let far = vec![ObserverPos { x: 40, y: 0 }];
    tick(&cfg, &mut m, &far);
    // chunk 1 (anchor x = 4, distance 36) goes dormant first; chunk -2
    // (distance 48 > 10) is despawned from its dormant state
    assert_eq!(chunk_state(&m, 1, 0), Some(ChunkState::Dormant));
    assert_eq!(chunk_state(&m, -2, 0), None);
    assert!(m.get(&cfg, &WorldPos { x: -8, y: 0 }).is_none());
    // the window around chunk x = 10 has spawned
    for x in 8i64..12 {
        assert!(chunk_state(&m, x, 0).is_some());
    }
    tick(&cfg, &mut m, &far);
    // and chunk 1 is despawned one tick later
    assert_eq!(chunk_state(&m, 1, 0), None);
}

#[test]
fn bounds_invariant_over_many_ticks() {
    let cfg = cfg4();
    let mut m = ChunkManager::new();
    for step in 0..20i64 {
        let obs = vec![ObserverPos { x: step * 3, y: 0 }];
        tick(&cfg, &mut m, &obs);
        for e in m.spawned_chunks.iter() {
            for slot in e.chunk.tiles.iter() {
                if let Some(t) = slot {
                    if let TileKind::Dirt(d) = t.kind {
                        assert!(d.moisture() <= d.max_moisture());
                        assert!(d.nutrients() <= d.max_nutrients());
                    }
                }
            }
        }
    }
}

#[test]
fn multiple_observers_spawn_independent_windows() {
    let cfg = cfg4();
    let mut m = ChunkManager::new();
    let obs = vec![ObserverPos { x: 0, y: 0 }, ObserverPos { x: 40, y: 0 }];
    tick(&cfg, &mut m, &obs);
    // both observers' spawn windows exist; sleep/wake/despawn decisions go by
    // the last-iterated observer, so chunk -2 (distance 48 from it, dormant
    // after the first observer's pass) is despawned in the same tick
    for x in -1i64..2 {
        assert!(chunk_state(&m, x, 0).is_some());
    }
    for x in 8i64..12 {
        assert!(chunk_state(&m, x, 0).is_some());
    }
    assert_eq!(chunk_state(&m, -2, 0), None);
}

#[test]
fn boundary_distance_keeps_state() {
    let cfg = cfg4();
    let mut m = ChunkManager::new();
    spawn_chunks_around_camera(&cfg, &mut m, &ObserverPos { x: 0, y: 0 });
    // chunk -2 has anchor x = -8; an observer at x = -2 is at distance
    // exactly the simulation range 6: an active chunk stays active
    set_chunk_activity(&cfg, &mut m, -2);
    assert_eq!(chunk_state(&m, -2, 0), Some(ChunkState::Active));
    // once dormant, distance exactly the simulation range does not wake it
    set_chunk_activity(&cfg, &mut m, 0);
    assert_eq!(chunk_state(&m, -2, 0), Some(ChunkState::Dormant));
    set_chunk_activity(&cfg, &mut m, -2);
    assert_eq!(chunk_state(&m, -2, 0), Some(ChunkState::Dormant));
    // and distance exactly the spawn range does not despawn it
    set_chunk_activity(&cfg, &mut m, 2);
    assert_eq!(chunk_state(&m, -2, 0), Some(ChunkState::Dormant));
}

#[test]
fn empty_slot_resolves_none() {
    let cfg = WorldConfig {
        chunk_w: 2,
        chunk_h: 1,
        tile_w: 1,
        tile_h: 1,
        sim_range: 1,
        spawn_range: 2,
    };
    let mut m = ChunkManager::new();
    m.insert(
        ChunkPos { x: 0, y: 0 },
        Chunk {
            state: ChunkState::Active,
            tiles: vec![dirt_tile(1, 1), None],
        },
    );
    assert!(m.get(&cfg, &WorldPos { x: 0, y: 0 }).is_some());
    assert!(m.get(&cfg, &WorldPos { x: 1, y: 0 }).is_none());
    // an empty slot is no diffusion partner
    let events = Dirt::simulate(&cfg, &m);
    assert_eq!(events.len(), 0);
}
