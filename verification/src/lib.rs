use vstd::prelude::*;

pub mod chunk_managment;
pub mod tiles;

use crate::chunk_managment::{ChunkManager, ChunkView, ObserverPos, mgr_view, view_wf, chunk_view_wf, spawn_rel, activity_rel, obs_in_limit, spawn_chunks_around_camera, set_chunk_activity};
use crate::tiles::{Dirt, apply_events, apply_rel, sim_events};

verus! {

/// Largest magnitude a chunk coordinate may have; keeps every anchor and
/// distance computation inside `i64`.
pub const CHUNK_COORD_LIMIT: i64 = 0x4000_0000;

/// Largest magnitude a world tile coordinate may have.
pub const WORLD_COORD_LIMIT: i64 = 0x1_0000_0000_0000;

/// Largest magnitude an observer pixel coordinate may have.
pub const CAMERA_LIMIT: i64 = 0x1000_0000_0000_0000;

/// Static configuration of the streamed world: chunk and tile dimensions and
/// the two distance bands that drive the chunk lifecycle.
pub struct WorldConfig {
    /// Chunk width in tiles.
    pub chunk_w: u32,
    /// Chunk height in tiles.
    pub chunk_h: u32,
    /// Tile width in pixels.
    pub tile_w: u32,
    /// Tile height in pixels.
    pub tile_h: u32,
    /// An active chunk farther than this (in pixels) from the observer goes dormant.
    pub sim_range: i64,
    /// A dormant chunk farther than this (in pixels) from the observer is despawned.
    pub spawn_range: i64,
}

impl WorldConfig {
    /// A configuration is valid when the dimensions are positive and bounded
    /// and the despawn band lies strictly beyond the dormancy band.
    pub open spec fn wf(self) -> bool {
        &&& 1 <= self.chunk_w <= 4096
        &&& 1 <= self.chunk_h <= 4096
        &&& 1 <= self.tile_w <= 4096
        &&& 1 <= self.tile_h <= 4096
        &&& 0 <= self.sim_range < self.spawn_range
    }

    /// Startup validation: a malformed configuration is a programmer error and
    /// is rejected here rather than at any later point.
    pub fn validate(&self) -> (r: bool)
        ensures
            r == self.wf(),
    {
        1 <= self.chunk_w && self.chunk_w <= 4096
            && 1 <= self.chunk_h && self.chunk_h <= 4096
            && 1 <= self.tile_w && self.tile_w <= 4096
            && 1 <= self.tile_h && self.tile_h <= 4096
            && 0 <= self.sim_range && self.sim_range < self.spawn_range
    }
}


/// A spawn pass has run for each observer in order.
pub open spec fn spawn_all_rel(cfg: WorldConfig, obs: Seq<ObserverPos>, a: Seq<ChunkView>, b: Seq<ChunkView>) -> bool
    decreases obs.len(),
{
    if obs.len() == 0 {
        a == b
    } else {
        exists|mid: Seq<ChunkView>| spawn_all_rel(cfg, obs.drop_last(), a, mid)
            && #[trigger] spawn_rel(cfg, obs.last(), mid, b)
    }
}

/// An activity pass has run for each observer in order.
pub open spec fn activity_all_rel(cfg: WorldConfig, obs: Seq<ObserverPos>, a: Seq<ChunkView>, b: Seq<ChunkView>) -> bool
    decreases obs.len(),
{
    if obs.len() == 0 {
        a == b
    } else {
        exists|mid: Seq<ChunkView>| activity_all_rel(cfg, obs.drop_last(), a, mid)
            && #[trigger] activity_rel(cfg, obs.last().x as int, mid, b)
    }
}

/// One full lifecycle pass: all spawn passes, then all activity passes.
pub open spec fn lifecycle_rel(cfg: WorldConfig, obs: Seq<ObserverPos>, a: Seq<ChunkView>, b: Seq<ChunkView>) -> bool {
    exists|mid: Seq<ChunkView>| #[trigger] spawn_all_rel(cfg, obs, a, mid)
        && activity_all_rel(cfg, obs, mid, b)
}

/// One simulation tick: the chunk lifecycle runs first for every observer
/// (spawn, then sleep/wake/despawn), so newly spawned or woken chunks are
/// visible to diffusion in the same tick; then the diffusion request pass
/// scans the registry once, and the apply pass folds all its events into the
/// tile data. Afterwards every tile's resources are within its ceilings.
pub fn tick(cfg: &WorldConfig, m: &mut ChunkManager, observers: &Vec<ObserverPos>)
    requires
        cfg.wf(),
        old(m).wf(*cfg),
        forall|i: int| 0 <= i < observers@.len() ==> obs_in_limit(#[trigger] observers@[i]),
    ensures
        view_wf(*cfg, mgr_view(*final(m))),
        exists|mid: Seq<ChunkView>|
            lifecycle_rel(*cfg, observers@, mgr_view(*old(m)), mid)
            && #[trigger] apply_rel(*cfg, sim_events(*cfg, mid), mid, mgr_view(*final(m))),
        forall|i: int, k: int| 0 <= i < mgr_view(*final(m)).len()
            && 0 <= k < mgr_view(*final(m))[i].tiles.len()
            ==> (#[trigger] mgr_view(*final(m))[i].tiles[k] matches Some(t) ==> t.wf()),
{
    let ghost a0 = mgr_view(*old(m));
    let mut oi: usize = 0;
    proof {
        assert(observers@.take(0) =~= Seq::<ObserverPos>::empty());
    }
    while oi < observers.len()
        invariant
            cfg.wf(),
            view_wf(*cfg, mgr_view(*m)),
            oi <= observers@.len(),
            forall|i: int| 0 <= i < observers@.len() ==> obs_in_limit(#[trigger] observers@[i]),
            spawn_all_rel(*cfg, observers@.take(oi as int), a0, mgr_view(*m)),
        decreases observers@.len() - oi,
    {
        let ghost pre = mgr_view(*m);
        let obs = observers[oi];
        spawn_chunks_around_camera(cfg, m, &obs);
        proof {
            assert(observers@.take(oi as int + 1).drop_last() =~= observers@.take(oi as int));
            assert(observers@.take(oi as int + 1).last() == observers@[oi as int]);
            assert(spawn_all_rel(*cfg, observers@.take(oi as int + 1), a0, mgr_view(*m)));
        }
        oi = oi + 1;
    }
    proof {
        assert(observers@.take(observers@.len() as int) =~= observers@);
    }
    let ghost a1 = mgr_view(*m);
    let mut oj: usize = 0;
    proof {
        assert(observers@.take(0) =~= Seq::<ObserverPos>::empty());
    }
    while oj < observers.len()
        invariant
            cfg.wf(),
            view_wf(*cfg, mgr_view(*m)),
            oj <= observers@.len(),
            forall|i: int| 0 <= i < observers@.len() ==> obs_in_limit(#[trigger] observers@[i]),
            activity_all_rel(*cfg, observers@.take(oj as int), a1, mgr_view(*m)),
        decreases observers@.len() - oj,
    {
        let ghost pre = mgr_view(*m);
        let obs = observers[oj];
        set_chunk_activity(cfg, m, obs.x);
        proof {
            assert(observers@.take(oj as int + 1).drop_last() =~= observers@.take(oj as int));
            assert(observers@.take(oj as int + 1).last() == observers@[oj as int]);
            assert(activity_all_rel(*cfg, observers@.take(oj as int + 1), a1, mgr_view(*m)));
        }
        oj = oj + 1;
    }
    proof {
        assert(observers@.take(observers@.len() as int) =~= observers@);
    }
    let ghost a2 = mgr_view(*m);
    proof {
        assert(lifecycle_rel(*cfg, observers@, a0, a2));
    }
    let events = Dirt::simulate(cfg, m);
    apply_events(cfg, m, &events);
    proof {
        assert(lifecycle_rel(*cfg, observers@, a0, a2)
            && apply_rel(*cfg, sim_events(*cfg, a2), a2, mgr_view(*m)));
        assert forall|i: int, k: int| 0 <= i < mgr_view(*m).len()
            && 0 <= k < mgr_view(*m)[i].tiles.len()
            implies (#[trigger] mgr_view(*m)[i].tiles[k] matches Some(t) ==> t.wf()) by {
            assert(chunk_view_wf(*cfg, mgr_view(*m)[i]));
        }
    }
}

} // verus!
