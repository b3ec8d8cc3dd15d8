use vstd::prelude::*;
use crate::chunk_managment::{WorldPos, world_in_limit, ChunkPos, TilePos, ChunkState, Chunk, ChunkEntry, ChunkManager, ChunkView, mgr_view, entries_view, entry_view, resolve_view, chunk_view_wf, view_wf, chunk_pos_to_world_pos, tile_index, wtc_cx, wtc_cy, wtc_tx, wtc_ty};
use crate::{WorldConfig, WORLD_COORD_LIMIT};

verus! {

/// Default ceiling for moisture in a fresh dirt tile: the full `u8` range.
pub const DEFAULT_MAX_MOISTURE: u8 = 255;

/// Default ceiling for nutrients in a fresh dirt tile: half the `u8` range.
pub const DEFAULT_MAX_NUTRIENTS: u8 = 127;

/// Resource content of a dirt tile. The two values are always kept within
/// the per-tile ceilings that were fixed when the tile was created.
#[derive(Clone, Copy, Debug, PartialEq, Eq, Structural)]
pub struct Dirt {
    pub moisture: u8,
    pub max_moisture: u8,
    pub nutrients: u8,
    pub max_nutrients: u8,
}

impl Dirt {
    /// A dirt tile is well formed when each resource is within its ceiling.
    pub open spec fn wf(self) -> bool {
        self.moisture <= self.max_moisture && self.nutrients <= self.max_nutrients
    }

    pub fn moisture(&self) -> (r: u8)
        ensures
            r == self.moisture,
    {
        self.moisture
    }

    pub fn max_moisture(&self) -> (r: u8)
        ensures
            r == self.max_moisture,
    {
        self.max_moisture
    }

    pub fn nutrients(&self) -> (r: u8)
        ensures
            r == self.nutrients,
    {
        self.nutrients
    }

    pub fn max_nutrients(&self) -> (r: u8)
        ensures
            r == self.max_nutrients,
    {
        self.max_nutrients
    }
}

/// Placeholder tile kind: empty space, carrying no data.
#[derive(Clone, Copy, Debug, PartialEq, Eq, Structural)]
pub struct Air;

/// Placeholder tile kind for future growth; not simulated.
#[derive(Clone, Copy, Debug, PartialEq, Eq, Structural)]
pub enum Tree {
    Root,
    Trunk,
    Leaf,
}

/// The closed set of tile data variants. Only `Dirt` carries simulated data.
#[derive(Clone, Copy, Debug, PartialEq, Eq, Structural)]
pub enum TileKind {
    Air(Air),
    Dirt(Dirt),
    Tree(Tree),
}

/// A world tile: one instance of exactly one tile-data variant.
#[derive(Clone, Copy, Debug, PartialEq, Eq, Structural)]
pub struct Tile {
    pub kind: TileKind,
}

impl Tile {
    /// A tile is well formed when its data variant is.
    pub open spec fn wf(self) -> bool {
        match self.kind {
            TileKind::Dirt(d) => d.wf(),
            _ => true,
        }
    }

    /// The dirt tile every chunk slot is populated with at spawn.
    pub open spec fn default_dirt() -> Tile {
        Tile {
            kind: TileKind::Dirt(Dirt {
                moisture: 0,
                max_moisture: DEFAULT_MAX_MOISTURE,
                nutrients: 0,
                max_nutrients: DEFAULT_MAX_NUTRIENTS,
            }),
        }
    }

    /// Builds a fresh dirt tile at its default state: empty resources under
    /// the default ceilings.
    pub fn create_tile() -> (t: Tile)
        ensures
            t == Tile::default_dirt(),
            t.wf(),
    {
        Tile {
            kind: TileKind::Dirt(Dirt {
                moisture: 0,
                max_moisture: DEFAULT_MAX_MOISTURE,
                nutrients: 0,
                max_nutrients: DEFAULT_MAX_NUTRIENTS,
            }),
        }
    }
}

/// A resource amount moved by one diffusion event.
#[derive(Clone, Copy, Debug, PartialEq, Eq, Structural)]
pub struct TileModifierDesc {
    pub moisture: u8,
    pub nutrients: u8,
}

/// One diffusion event: add resources to, or subtract them from, the tile at
/// a world coordinate. Events are produced by the request phase and consumed
/// by the apply phase within the same tick.
#[derive(Clone, Copy, Debug, PartialEq, Eq, Structural)]
pub enum TileEvent {
    Add(WorldPos, TileModifierDesc),
    Subtract(WorldPos, TileModifierDesc),
}

/// The world coordinate at offset `(dx, dy)` from `p`.
pub open spec fn npos(p: WorldPos, dx: int, dy: int) -> WorldPos {
    WorldPos { x: (p.x + dx) as i64, y: (p.y + dy) as i64 }
}

/// The eight square neighbors of `p`, in a fixed scan order.
pub open spec fn neighbor_seq(p: WorldPos) -> Seq<WorldPos> {
    seq![
        npos(p, -1, -1),
        npos(p, -1, 0),
        npos(p, -1, 1),
        npos(p, 0, -1),
        npos(p, 0, 1),
        npos(p, 1, -1),
        npos(p, 1, 0),
        npos(p, 1, 1),
    ]
}

/// The eight square neighbors of a world coordinate.
pub struct WorldNeighbors {
    pub neighbors: Vec<WorldPos>,
}

impl WorldNeighbors {
    pub fn get_square_neighboring_positions(position: WorldPos) -> (r: WorldNeighbors)
        requires
            world_in_limit(position),
        ensures
            r.neighbors@ == neighbor_seq(position),
    {
        let mut v: Vec<WorldPos> = Vec::new();
        v.push(WorldPos { x: position.x - 1, y: position.y - 1 });
        v.push(WorldPos { x: position.x - 1, y: position.y });
        v.push(WorldPos { x: position.x - 1, y: position.y + 1 });
        v.push(WorldPos { x: position.x, y: position.y - 1 });
        v.push(WorldPos { x: position.x, y: position.y + 1 });
        v.push(WorldPos { x: position.x + 1, y: position.y - 1 });
        v.push(WorldPos { x: position.x + 1, y: position.y });
        v.push(WorldPos { x: position.x + 1, y: position.y + 1 });
        proof {
            assert(v@ =~= neighbor_seq(position));
        }
        WorldNeighbors { neighbors: v }
    }

    /// The neighbor coordinates as a list, in scan order.
    pub fn iter(&self) -> (r: Vec<WorldPos>)
        ensures
            r@ == self.neighbors@,
    {
        let mut v: Vec<WorldPos> = Vec::new();
        let mut i: usize = 0;
        while i < self.neighbors.len()
            invariant
                i <= self.neighbors.len(),
                v@ == self.neighbors@.take(i as int),
            decreases self.neighbors.len() - i,
        {
            v.push(self.neighbors[i]);
            proof {
                assert(v@ =~= self.neighbors@.take(i as int + 1));
            }
            i = i + 1;
        }
        proof {
            assert(v@ =~= self.neighbors@);
        }
        v
    }
}

/// The two events one source tile emits toward one existing neighbor: add one
/// unit of each resource to the neighbor and subtract one from the source.
pub open spec fn pair_events(src: WorldPos, n: WorldPos) -> Seq<TileEvent> {
    seq![
        TileEvent::Add(n, TileModifierDesc { moisture: 1, nutrients: 1 }),
        TileEvent::Subtract(src, TileModifierDesc { moisture: 1, nutrients: 1 }),
    ]
}

/// Events emitted for one neighbor probe: the transfer pair when the
/// neighbor coordinate resolves to an existing tile, nothing otherwise.
pub open spec fn nb_events(cfg: WorldConfig, v: Seq<ChunkView>, src: WorldPos, n: WorldPos) -> Seq<TileEvent> {
    if resolve_view(cfg, v, n) is Some {
        pair_events(src, n)
    } else {
        Seq::empty()
    }
}

/// Events a dirt tile at `src` emits for its first `j` neighbor probes, in
/// scan order.
pub open spec fn tile_events_upto(cfg: WorldConfig, v: Seq<ChunkView>, src: WorldPos, j: int) -> Seq<TileEvent>
    decreases j,
{
    if j <= 0 {
        Seq::empty()
    } else {
        tile_events_upto(cfg, v, src, j - 1) + nb_events(cfg, v, src, neighbor_seq(src)[j - 1])
    }
}

/// All events one dirt tile at world coordinate `src` emits: one probe per
/// square neighbor, in scan order.
pub open spec fn tile_events(cfg: WorldConfig, v: Seq<ChunkView>, src: WorldPos) -> Seq<TileEvent> {
    tile_events_upto(cfg, v, src, 8)
}

/// World coordinate of the tile slot at row-major index `k` of the chunk at
/// `cpos`.
pub open spec fn slot_world(cfg: WorldConfig, cpos: ChunkPos, k: int) -> WorldPos {
    WorldPos {
        x: (cpos.x * cfg.chunk_w + (k % (cfg.chunk_w as int))) as i64,
        y: (cpos.y * cfg.chunk_h + (k / (cfg.chunk_w as int))) as i64,
    }
}

/// Events emitted by the tile slot at index `k`: a dirt tile emits its
/// neighbor probes, an empty slot or another kind emits nothing.
pub open spec fn slot_events(cfg: WorldConfig, v: Seq<ChunkView>, cpos: ChunkPos, slot: Option<Tile>, k: int) -> Seq<TileEvent> {
    match slot {
        Some(t) => match t.kind {
            TileKind::Dirt(_) => tile_events(cfg, v, slot_world(cfg, cpos, k)),
            _ => Seq::empty(),
        },
        None => Seq::empty(),
    }
}

/// Events emitted by the first `upto` tile slots of the chunk `cv`.
pub open spec fn chunk_events(cfg: WorldConfig, v: Seq<ChunkView>, cv: ChunkView, upto: int) -> Seq<TileEvent>
    decreases upto,
{
    if upto <= 0 {
        Seq::empty()
    } else {
        chunk_events(cfg, v, cv, upto - 1) + slot_events(cfg, v, cv.pos, cv.tiles[upto - 1], upto - 1)
    }
}

/// Events emitted by the first `upto` registry entries: dormant chunks are
/// skipped entirely, so only active chunks' tiles are simulated.
pub open spec fn sim_events_upto(cfg: WorldConfig, v: Seq<ChunkView>, upto: int) -> Seq<TileEvent>
    decreases upto,
{
    if upto <= 0 {
        Seq::empty()
    } else {
        sim_events_upto(cfg, v, upto - 1)
            + (if v[upto - 1].state == ChunkState::Active {
                chunk_events(cfg, v, v[upto - 1], v[upto - 1].tiles.len() as int)
            } else {
                Seq::empty()
            })
    }
}

/// The full event list of one diffusion request pass over the registry.
pub open spec fn sim_events(cfg: WorldConfig, v: Seq<ChunkView>) -> Seq<TileEvent> {
    sim_events_upto(cfg, v, v.len() as int)
}

/// Probes one neighbor coordinate and, when it resolves to an existing tile,
/// appends the transfer pair for it.
fn push_pair_if_neighbor(cfg: &WorldConfig, m: &ChunkManager, events: &mut Vec<TileEvent>, src: WorldPos, n: WorldPos)
    requires
        cfg.wf(),
        m.wf(*cfg),
        world_in_limit(n),
    ensures
        final(events)@ == old(events)@ + nb_events(*cfg, mgr_view(*m), src, n),
{
    match m.get(cfg, &n) {
        Some(_) => {
            events.push(TileEvent::Add(n, TileModifierDesc { moisture: 1, nutrients: 1 }));
            events.push(TileEvent::Subtract(src, TileModifierDesc { moisture: 1, nutrients: 1 }));
            proof {
                assert(events@ =~= old(events)@ + nb_events(*cfg, mgr_view(*m), src, n));
            }
        }
        None => {
            proof {
                assert(events@ =~= old(events)@ + nb_events(*cfg, mgr_view(*m), src, n));
            }
        }
    }
}


/// Emits the events of one tile slot: a dirt tile probes its eight
/// neighbors in scan order; any other slot emits nothing.
#[verifier::rlimit(100)]
fn emit_slot_events(cfg: &WorldConfig, m: &ChunkManager, events: &mut Vec<TileEvent>, cpos: ChunkPos, slot: Option<Tile>, k: usize)
    requires
        cfg.wf(),
        m.wf(*cfg),
        crate::chunk_managment::pos_in_limit(cpos),
        (k as int) < (cfg.chunk_w as int) * (cfg.chunk_h as int),
        (cfg.chunk_w as int) * (cfg.chunk_h as int) <= 0x100_0000,
    ensures
        final(events)@ == old(events)@ + slot_events(*cfg, mgr_view(*m), cpos, slot, k as int),
{
    let ghost base = events@;
    let is_dirt = match slot {
        Some(t) => match t.kind {
            TileKind::Dirt(_) => true,
            _ => false,
        },
        None => false,
    };
    if is_dirt {
        let tx = (k as u32) % cfg.chunk_w;
        let ty = (k as u32) / cfg.chunk_w;
        proof {
            assert((k as int) % (cfg.chunk_w as int) == tx as int);
            assert((k as int) / (cfg.chunk_w as int) == ty as int);
            assert((ty as int) < cfg.chunk_h as int) by (nonlinear_arith)
                requires
                    ty as int == (k as int) / (cfg.chunk_w as int),
                    0 <= k as int,
                    (k as int) < (cfg.chunk_w as int) * (cfg.chunk_h as int),
                    1 <= cfg.chunk_w as int,
                    1 <= cfg.chunk_h as int;
        }
        let src = chunk_pos_to_world_pos(cfg, &cpos, &TilePos { x: tx, y: ty });
        proof {
            vstd::arithmetic::div_mod::lemma_fundamental_div_mod(k as int, cfg.chunk_w as int);
            assert(src == slot_world(*cfg, cpos, k as int));
        }
        let nbrs = WorldNeighbors::get_square_neighboring_positions(src);
        let mut j: usize = 0;
        while j < nbrs.neighbors.len()
            invariant
                cfg.wf(),
                m.wf(*cfg),
                nbrs.neighbors@ == neighbor_seq(src),
                world_in_limit(src),
                -(WORLD_COORD_LIMIT - 2) <= src.x <= WORLD_COORD_LIMIT - 2,
                -(WORLD_COORD_LIMIT - 2) <= src.y <= WORLD_COORD_LIMIT - 2,
                j <= 8,
                events@ == base + tile_events_upto(*cfg, mgr_view(*m), src, j as int),
            decreases 8 - j,
        {
            let n = nbrs.neighbors[j];
            proof {
                assert(n == neighbor_seq(src)[j as int]);
                assert(world_in_limit(n));
            }
            push_pair_if_neighbor(cfg, m, events, src, n);
            proof {
                assert(events@ =~= base + tile_events_upto(*cfg, mgr_view(*m), src, j as int + 1));
            }
            j = j + 1;
        }
        proof {
            assert(events@ =~= base + slot_events(*cfg, mgr_view(*m), cpos, slot, k as int));
        }
    } else {
        proof {
            assert(slot_events(*cfg, mgr_view(*m), cpos, slot, k as int) =~= Seq::<TileEvent>::empty());
            assert(events@ =~= base + slot_events(*cfg, mgr_view(*m), cpos, slot, k as int));
        }
    }
}

impl Dirt {
    /// The diffusion request pass: scans every dirt tile of every active
    /// chunk and emits, for each of its eight neighbors that resolves to an
    /// existing tile, an add event toward the neighbor and a subtract event
    /// against the tile itself. Nothing is mutated; the returned list is the
    /// tick's complete message queue, in scan order.
    #[verifier::rlimit(100)]
    pub fn simulate(cfg: &WorldConfig, chunk_manager: &ChunkManager) -> (events: Vec<TileEvent>)
        requires
            cfg.wf(),
            chunk_manager.wf(*cfg),
        ensures
            events@ == sim_events(*cfg, mgr_view(*chunk_manager)),
    {
        let ghost v = mgr_view(*chunk_manager);
        let mut events: Vec<TileEvent> = Vec::new();
        let mut ci: usize = 0;
        while ci < chunk_manager.spawned_chunks.len()
            invariant
                cfg.wf(),
                chunk_manager.wf(*cfg),
                v == mgr_view(*chunk_manager),
                ci <= v.len(),
                events@ == sim_events_upto(*cfg, v, ci as int),
            decreases v.len() - ci,
        {
            let e = &chunk_manager.spawned_chunks[ci];
            proof {
                assert(entry_view(*e) == v[ci as int]);
                assert(chunk_view_wf(*cfg, v[ci as int]));
            }
            match e.chunk.state {
                ChunkState::Active => {
                    let mut k: usize = 0;
                    let nt = e.chunk.tiles.len();
                    proof {
                        assert((cfg.chunk_w as int) * (cfg.chunk_h as int) <= 0x100_0000) by (nonlinear_arith)
                            requires 1 <= cfg.chunk_w as int <= 4096, 1 <= cfg.chunk_h as int <= 4096;
                    }
                    while k < nt
                        invariant
                            cfg.wf(),
                            chunk_manager.wf(*cfg),
                            v == mgr_view(*chunk_manager),
                            ci < v.len(),
                            e == &chunk_manager.spawned_chunks[ci as int],
                            entry_view(*e) == v[ci as int],
                            e.chunk.state == ChunkState::Active,
                            nt == v[ci as int].tiles.len(),
                            nt <= 0x100_0000,
                            (cfg.chunk_w as int) * (cfg.chunk_h as int) <= 0x100_0000,
                            k <= nt,
                            events@ == sim_events_upto(*cfg, v, ci as int)
                                + chunk_events(*cfg, v, v[ci as int], k as int),
                        decreases nt - k,
                    {
                        let ghost base = events@;
                        let slot = e.chunk.tiles[k];
                        emit_slot_events(cfg, chunk_manager, &mut events, e.pos, slot, k);
                        proof {
                            assert(slot == v[ci as int].tiles[k as int]);
                            assert(events@ =~= sim_events_upto(*cfg, v, ci as int)
                                + chunk_events(*cfg, v, v[ci as int], k as int + 1));
                        }
                        k = k + 1;
                    }
                    proof {
                        assert(events@ =~= sim_events_upto(*cfg, v, ci as int + 1));
                    }
                }
                ChunkState::Dormant => {
                    proof {
                        assert(events@ =~= sim_events_upto(*cfg, v, ci as int + 1));
                    }
                }
            }
            ci = ci + 1;
        }
        events
    }
}

/// Signed moisture contribution of one event to the tile at `p`.
pub open spec fn delta_m(ev: TileEvent, p: WorldPos) -> int {
    match ev {
        TileEvent::Add(q, d) => if q == p { d.moisture as int } else { 0 },
        TileEvent::Subtract(q, d) => if q == p { -(d.moisture as int) } else { 0 },
    }
}

/// Signed nutrient contribution of one event to the tile at `p`.
pub open spec fn delta_n(ev: TileEvent, p: WorldPos) -> int {
    match ev {
        TileEvent::Add(q, d) => if q == p { d.nutrients as int } else { 0 },
        TileEvent::Subtract(q, d) => if q == p { -(d.nutrients as int) } else { 0 },
    }
}

/// Net moisture change requested for the tile at `p`: the algebraic sum over
/// the whole event list, taken before any clamping.
pub open spec fn net_m(events: Seq<TileEvent>, p: WorldPos) -> int
    decreases events.len(),
{
    if events.len() == 0 {
        0
    } else {
        net_m(events.drop_last(), p) + delta_m(events.last(), p)
    }
}

/// Net nutrient change requested for the tile at `p`.
pub open spec fn net_n(events: Seq<TileEvent>, p: WorldPos) -> int
    decreases events.len(),
{
    if events.len() == 0 {
        0
    } else {
        net_n(events.drop_last(), p) + delta_n(events.last(), p)
    }
}

/// Clamps an integer resource value into `[0, max]`.
pub open spec fn clamp_u8(v: int, max: u8) -> u8 {
    if v < 0 {
        0u8
    } else if v > max {
        max
    } else {
        v as u8
    }
}

/// The new content of one tile slot after the apply phase: a dirt tile takes
/// the clamped sum of its old value and the net requested change; an empty
/// slot or another kind is left untouched.
pub open spec fn apply_tile(slot: Option<Tile>, dm: int, dn: int) -> Option<Tile> {
    match slot {
        Some(t) => match t.kind {
            TileKind::Dirt(d) => Some(Tile { kind: TileKind::Dirt(Dirt {
                moisture: clamp_u8(d.moisture + dm, d.max_moisture),
                max_moisture: d.max_moisture,
                nutrients: clamp_u8(d.nutrients + dn, d.max_nutrients),
                max_nutrients: d.max_nutrients,
            }) }),
            _ => Some(t),
        },
        None => None,
    }
}

/// What the apply phase does to the registry: membership, order, states and
/// grid sizes are untouched, and every tile slot becomes `apply_tile` of its
/// old content and the net change the events request for its coordinate.
pub open spec fn apply_rel(cfg: WorldConfig, events: Seq<TileEvent>, a: Seq<ChunkView>, b: Seq<ChunkView>) -> bool {
    &&& b.len() == a.len()
    &&& forall|i: int| 0 <= i < a.len() ==> (#[trigger] b[i]).pos == a[i].pos
        && b[i].state == a[i].state && b[i].tiles.len() == a[i].tiles.len()
    &&& forall|i: int, k: int| 0 <= i < a.len() && 0 <= k < a[i].tiles.len()
        ==> (#[trigger] b[i].tiles[k]) == apply_tile(
            a[i].tiles[k],
            net_m(events, slot_world(cfg, a[i].pos, k)),
            net_n(events, slot_world(cfg, a[i].pos, k)))
}

/// Sums the net change the event list requests for the tile at `p`.
fn net_for(events: &Vec<TileEvent>, p: WorldPos) -> (r: (i128, i128))
    ensures
        r.0 == net_m(events@, p),
        r.1 == net_n(events@, p),
        -0x1_0000_0000_0000_0000_0000 <= r.0 <= 0x1_0000_0000_0000_0000_0000,
        -0x1_0000_0000_0000_0000_0000 <= r.1 <= 0x1_0000_0000_0000_0000_0000,
{
    let mut am: i128 = 0;
    let mut an: i128 = 0;
    let mut j: usize = 0;
    while j < events.len()
        invariant
            j <= events@.len(),
            -255 * (j as int) <= am <= 255 * (j as int),
            -255 * (j as int) <= an <= 255 * (j as int),
            am == net_m(events@.take(j as int), p),
            an == net_n(events@.take(j as int), p),
        decreases events@.len() - j,
    {
        let ev = events[j];
        proof {
            assert(events@.take(j as int + 1).drop_last() =~= events@.take(j as int));
            assert(events@.take(j as int + 1).last() == events@[j as int]);
        }
        match ev {
            TileEvent::Add(q, d) => {
                if q.x == p.x && q.y == p.y {
                    am = am + (d.moisture as i128);
                    an = an + (d.nutrients as i128);
                }
            }
            TileEvent::Subtract(q, d) => {
                if q.x == p.x && q.y == p.y {
                    am = am - (d.moisture as i128);
                    an = an - (d.nutrients as i128);
                }
            }
        }
        j = j + 1;
    }
    proof {
        assert(events@.take(events@.len() as int) =~= events@);
    }
    (am, an)
}

/// The diffusion apply phase: folds the tick's whole event list into the
/// tile data. The changes requested for each tile are summed algebraically
/// first and clamped once into `[0, max]`, so application order cannot skew
/// the result; events whose target does not exist are dropped silently.
#[verifier::rlimit(100)]
pub fn apply_events(cfg: &WorldConfig, m: &mut ChunkManager, events: &Vec<TileEvent>)
    requires
        cfg.wf(),
        old(m).wf(*cfg),
    ensures
        view_wf(*cfg, mgr_view(*final(m))),
        apply_rel(*cfg, events@, mgr_view(*old(m)), mgr_view(*final(m))),
{
    let ghost orig = mgr_view(*old(m));
    let n0 = m.spawned_chunks.len();
    proof {
        assert(orig.len() == n0);
    }
    let mut out: Vec<ChunkEntry> = Vec::new();
    let mut i: usize = 0;
    while m.spawned_chunks.len() > 0
        invariant
            cfg.wf(),
            view_wf(*cfg, orig),
            orig.len() <= usize::MAX,
            i + m.spawned_chunks@.len() == orig.len(),
            entries_view(m.spawned_chunks@) == orig.skip(i as int),
            entries_view(out@).len() == i,
            forall|j: int| 0 <= j < i ==> (#[trigger] entries_view(out@)[j]).pos == orig[j].pos
                && entries_view(out@)[j].state == orig[j].state
                && entries_view(out@)[j].tiles.len() == orig[j].tiles.len(),
            forall|j: int, k: int| 0 <= j < i && 0 <= k < orig[j].tiles.len()
                ==> (#[trigger] entries_view(out@)[j].tiles[k]) == apply_tile(
                    orig[j].tiles[k],
                    net_m(events@, slot_world(*cfg, orig[j].pos, k)),
                    net_n(events@, slot_world(*cfg, orig[j].pos, k))),
        decreases m.spawned_chunks@.len(),
    {
        let ghost ov = entries_view(out@);
        let ghost old_entries = m.spawned_chunks@;
        let e = m.spawned_chunks.remove(0);
        proof {
            assert(orig.skip(i as int)[0] == entry_view(e));
            assert(orig[i as int] == entry_view(e));
            assert forall|j: int| 0 <= j < m.spawned_chunks@.len()
                implies entries_view(m.spawned_chunks@)[j] == orig.skip(i as int + 1)[j] by {
                assert(entries_view(m.spawned_chunks@)[j] == entry_view(m.spawned_chunks@[j]));
                assert(m.spawned_chunks@[j] == old_entries[j + 1]);
                assert(entries_view(old_entries)[j + 1] == entry_view(old_entries[j + 1]));
                assert(entries_view(old_entries)[j + 1] == orig.skip(i as int)[j + 1]);
            }
            assert(entries_view(m.spawned_chunks@) =~= orig.skip(i as int + 1));
            assert(chunk_view_wf(*cfg, orig[i as int]));
        }
        let mut new_tiles: Vec<Option<Tile>> = Vec::new();
        let mut k: usize = 0;
        let nt = e.chunk.tiles.len();
        proof {
            assert((cfg.chunk_w as int) * (cfg.chunk_h as int) <= 0x100_0000) by (nonlinear_arith)
                requires 1 <= cfg.chunk_w as int <= 4096, 1 <= cfg.chunk_h as int <= 4096;
        }
        while k < nt
            invariant
                nt <= 0x100_0000,
                cfg.wf(),
                chunk_view_wf(*cfg, orig[i as int]),
                0 <= (i as int) && (i as int) < orig.len(),
                entry_view(e) == orig[i as int],
                nt == e.chunk.tiles@.len(),
                k <= nt,
                new_tiles@.len() == k,
                forall|kk: int| 0 <= kk < k ==> (#[trigger] new_tiles@[kk]) == apply_tile(
                    orig[i as int].tiles[kk],
                    net_m(events@, slot_world(*cfg, orig[i as int].pos, kk)),
                    net_n(events@, slot_world(*cfg, orig[i as int].pos, kk))),
            decreases nt - k,
        {
            let slot = e.chunk.tiles[k];
            match slot {
                Some(t) => {
                    match t.kind {
                        TileKind::Dirt(d) => {
                            let tx = (k as u32) % cfg.chunk_w;
                            let ty = (k as u32) / cfg.chunk_w;
                            proof {
                                assert((ty as int) < cfg.chunk_h as int) by (nonlinear_arith)
                                    requires
                                        ty as int == (k as int) / (cfg.chunk_w as int),
                                        0 <= k as int,
                                        (k as int) < (cfg.chunk_w as int) * (cfg.chunk_h as int),
                                        1 <= cfg.chunk_w as int,
                                        1 <= cfg.chunk_h as int;
                            }
                            let wp = chunk_pos_to_world_pos(cfg, &e.pos, &TilePos { x: tx, y: ty });
                            proof {
                                vstd::arithmetic::div_mod::lemma_fundamental_div_mod(k as int, cfg.chunk_w as int);
                                assert(wp == slot_world(*cfg, orig[i as int].pos, k as int));
                            }
                            let (am, an) = net_for(events, wp);
                            let vm: i128 = (d.moisture as i128) + am;
                            let nm: u8 = if vm < 0 {
                                0u8
                            } else if vm > (d.max_moisture as i128) {
                                d.max_moisture
                            } else {
                                vm as u8
                            };
                            let vn: i128 = (d.nutrients as i128) + an;
                            let nn: u8 = if vn < 0 {
                                0u8
                            } else if vn > (d.max_nutrients as i128) {
                                d.max_nutrients
                            } else {
                                vn as u8
                            };
                            let ntile = Tile { kind: TileKind::Dirt(Dirt {
                                moisture: nm,
                                max_moisture: d.max_moisture,
                                nutrients: nn,
                                max_nutrients: d.max_nutrients,
                            }) };
                            proof {
                                assert(nm == clamp_u8(d.moisture + net_m(events@, wp), d.max_moisture));
                                assert(nn == clamp_u8(d.nutrients + net_n(events@, wp), d.max_nutrients));
                            }
                            new_tiles.push(Some(ntile));
                        }
                        _ => {
                            new_tiles.push(slot);
                        }
                    }
                }
                None => {
                    new_tiles.push(slot);
                }
            }
            k = k + 1;
        }
        let ne = ChunkEntry { pos: e.pos, chunk: Chunk { state: e.chunk.state, tiles: new_tiles } };
        out.push(ne);
        proof {
            assert(entries_view(out@) =~= ov.push(entry_view(ne)));
        }
        i = i + 1;
    }
    proof {
        assert(i == orig.len());
    }
    m.spawned_chunks = out;
    proof {
        let b = mgr_view(*m);
        assert forall|ii: int, jj: int| 0 <= ii < jj < b.len()
            implies b[ii].pos != b[jj].pos by {
            assert(b[ii].pos == orig[ii].pos && b[jj].pos == orig[jj].pos);
        }
        assert forall|ii: int| 0 <= ii < b.len()
            implies chunk_view_wf(*cfg, b[ii]) by {
            assert(chunk_view_wf(*cfg, orig[ii]));
            assert forall|k: int| 0 <= k < b[ii].tiles.len()
                implies (#[trigger] b[ii].tiles[k] matches Some(t) ==> t.wf()) by {
                assert(b[ii].tiles[k] == apply_tile(
                    orig[ii].tiles[k],
                    net_m(events@, slot_world(*cfg, orig[ii].pos, k)),
                    net_n(events@, slot_world(*cfg, orig[ii].pos, k))));
            }
        }
    }
}

/// The chunk coordinate owning world coordinate `w`.
pub open spec fn wchunk(cfg: WorldConfig, w: WorldPos) -> ChunkPos {
    ChunkPos { x: wtc_cx(cfg, w.x as int) as i64, y: wtc_cy(cfg, w.y as int) as i64 }
}

/// The row-major tile slot index of world coordinate `w` inside its chunk.
pub open spec fn wslot(cfg: WorldConfig, w: WorldPos) -> int {
    tile_index(cfg, wtc_tx(cfg, w.x as int), wtc_ty(cfg, w.y as int))
}

/// World coordinates within the range every registered tile can reach.
pub open spec fn w_tight(w: WorldPos) -> bool {
    &&& -(WORLD_COORD_LIMIT - 2) <= w.x <= WORLD_COORD_LIMIT - 2
    &&& -(WORLD_COORD_LIMIT - 2) <= w.y <= WORLD_COORD_LIMIT - 2
}

/// World coordinates one step beyond the tight range: a tile's neighbors.
pub open spec fn w_near(w: WorldPos) -> bool {
    &&& -(WORLD_COORD_LIMIT - 1) <= w.x <= WORLD_COORD_LIMIT - 1
    &&& -(WORLD_COORD_LIMIT - 1) <= w.y <= WORLD_COORD_LIMIT - 1
}

/// A tile slot's world coordinate determines the chunk and the slot: the
/// slot-to-world mapping is injective.
pub proof fn lemma_slot_world_inj(cfg: WorldConfig, p1: ChunkPos, k1: int, p2: ChunkPos, k2: int)
    requires
        cfg.wf(),
        crate::chunk_managment::pos_in_limit(p1),
        crate::chunk_managment::pos_in_limit(p2),
        0 <= k1 < (cfg.chunk_w as int) * (cfg.chunk_h as int),
        0 <= k2 < (cfg.chunk_w as int) * (cfg.chunk_h as int),
        slot_world(cfg, p1, k1) == slot_world(cfg, p2, k2),
    ensures
        p1 == p2,
        k1 == k2,
{
    let cw = cfg.chunk_w as int;
    let ch = cfg.chunk_h as int;
    vstd::arithmetic::div_mod::lemma_fundamental_div_mod(k1, cw);
    vstd::arithmetic::div_mod::lemma_fundamental_div_mod(k2, cw);
    vstd::arithmetic::div_mod::lemma_mod_division_less_than_divisor(k1, cw);
    vstd::arithmetic::div_mod::lemma_mod_division_less_than_divisor(k2, cw);
    vstd::arithmetic::div_mod::lemma_div_pos_is_pos(k1, cw);
    vstd::arithmetic::div_mod::lemma_div_pos_is_pos(k2, cw);
    assert(k1 / cw < ch && k2 / cw < ch) by (nonlinear_arith)
        requires
            cw * (k1 / cw) + (k1 % cw) == k1,
            cw * (k2 / cw) + (k2 % cw) == k2,
            0 <= k1 % cw, 0 <= k2 % cw,
            0 <= k1 / cw, 0 <= k2 / cw,
            k1 < cw * ch, k2 < cw * ch,
            1 <= cw, 1 <= ch;
    let x1 = p1.x * cw + (k1 % cw);
    let x2 = p2.x * cw + (k2 % cw);
    let y1 = p1.y * ch + (k1 / cw);
    let y2 = p2.y * ch + (k2 / cw);
    assert(-(WORLD_COORD_LIMIT - 2) <= x1 <= WORLD_COORD_LIMIT - 2
        && -(WORLD_COORD_LIMIT - 2) <= x2 <= WORLD_COORD_LIMIT - 2
        && -(WORLD_COORD_LIMIT - 2) <= y1 <= WORLD_COORD_LIMIT - 2
        && -(WORLD_COORD_LIMIT - 2) <= y2 <= WORLD_COORD_LIMIT - 2) by (nonlinear_arith)
        requires
            x1 == p1.x * cw + (k1 % cw), x2 == p2.x * cw + (k2 % cw),
            y1 == p1.y * ch + (k1 / cw), y2 == p2.y * ch + (k2 / cw),
            -0x4000_0000 <= p1.x <= 0x4000_0000, -0x4000_0000 <= p2.x <= 0x4000_0000,
            -0x4000_0000 <= p1.y <= 0x4000_0000, -0x4000_0000 <= p2.y <= 0x4000_0000,
            0 <= k1 % cw < cw, 0 <= k2 % cw < cw,
            0 <= k1 / cw < ch, 0 <= k2 / cw < ch,
            1 <= cw <= 4096, 1 <= ch <= 4096,
            WORLD_COORD_LIMIT == 0x1_0000_0000_0000i64;
    assert(x1 == x2 && y1 == y2);
    vstd::arithmetic::div_mod::lemma_fundamental_div_mod_converse(x1, cw, p1.x as int, k1 % cw);
    vstd::arithmetic::div_mod::lemma_fundamental_div_mod_converse(x2, cw, p2.x as int, k2 % cw);
    vstd::arithmetic::div_mod::lemma_fundamental_div_mod_converse(y1, ch, p1.y as int, k1 / cw);
    vstd::arithmetic::div_mod::lemma_fundamental_div_mod_converse(y2, ch, p2.y as int, k2 / cw);
    assert(p1.x == p2.x && p1.y == p2.y);
    assert(k1 % cw == k2 % cw && k1 / cw == k2 / cw);
}

/// Resolving a registered world coordinate reads exactly the slot whose
/// slot-to-world coordinate it is.
pub proof fn lemma_resolve_slot(cfg: WorldConfig, v: Seq<ChunkView>, w: WorldPos)
    requires
        cfg.wf(),
        view_wf(cfg, v),
        w_near(w),
        crate::chunk_managment::has_pos(v, wchunk(cfg, w)),
    ensures
        0 <= wslot(cfg, w) < crate::chunk_managment::at_pos(v, wchunk(cfg, w)).tiles.len(),
        resolve_view(cfg, v, w) == crate::chunk_managment::at_pos(v, wchunk(cfg, w)).tiles[wslot(cfg, w)],
        slot_world(cfg, wchunk(cfg, w), wslot(cfg, w)) == w,
        crate::chunk_managment::at_pos(v, wchunk(cfg, w)).pos == wchunk(cfg, w),
{
    let cw = cfg.chunk_w as int;
    let ch = cfg.chunk_h as int;
    crate::chunk_managment::lemma_wtc_in_range(cfg, w);
    let tx = wtc_tx(cfg, w.x as int);
    let ty = wtc_ty(cfg, w.y as int);
    let k = ty * cw + tx;
    assert(0 <= k && k < cw * ch && cw * ch <= 0x100_0000) by (nonlinear_arith)
        requires
            k == ty * cw + tx,
            0 <= tx < cw,
            0 <= ty < ch,
            1 <= cw <= 4096, 1 <= ch <= 4096;
    let c = wchunk(cfg, w);
    let i = crate::chunk_managment::idx_of(v, c);
    assert(v[i].pos == c);
    assert(chunk_view_wf(cfg, v[i]));
    vstd::arithmetic::div_mod::lemma_fundamental_div_mod_converse(k, cw, ty, tx);
    assert(k % cw == tx && k / cw == ty);
    assert(c.x as int == wtc_cx(cfg, w.x as int) && c.y as int == wtc_cy(cfg, w.y as int));
    assert(cw * (c.x as int) + tx == w.x as int);
    assert(ch * (c.y as int) + ty == w.y as int);
    assert((c.x as int) * cw == cw * (c.x as int)) by (nonlinear_arith);
    assert((c.y as int) * ch == ch * (c.y as int)) by (nonlinear_arith);
    assert((c.x as int) * cw + tx == w.x as int);
    assert((c.y as int) * ch + ty == w.y as int);
    assert(slot_world(cfg, c, k) == w);
}

/// The apply phase seen through `resolve_view`: what a world coordinate
/// resolves to afterwards is `apply_tile` of what it resolved to before, fed
/// with the net change the events request for exactly that coordinate.
pub proof fn lemma_resolve_apply(cfg: WorldConfig, events: Seq<TileEvent>, a: Seq<ChunkView>, b: Seq<ChunkView>, w: WorldPos)
    requires
        cfg.wf(),
        view_wf(cfg, a),
        apply_rel(cfg, events, a, b),
        w_near(w),
    ensures
        resolve_view(cfg, b, w) == apply_tile(resolve_view(cfg, a, w), net_m(events, w), net_n(events, w)),
{
    let c = wchunk(cfg, w);
    if crate::chunk_managment::has_pos(a, c) {
        lemma_resolve_slot(cfg, a, w);
        let i = crate::chunk_managment::idx_of(a, c);
        assert(a[i].pos == c);
        assert(b[i].pos == c);
        assert(crate::chunk_managment::has_pos(b, c));
        assert forall|ii: int, jj: int| 0 <= ii < jj < b.len()
            implies b[ii].pos != b[jj].pos by {
            assert(b[ii].pos == a[ii].pos && b[jj].pos == a[jj].pos);
        }
        crate::chunk_managment::lemma_at_pos_unique(b, c, i);
        let k = wslot(cfg, w);
        assert(b[i].tiles[k] == apply_tile(a[i].tiles[k],
            net_m(events, slot_world(cfg, a[i].pos, k)),
            net_n(events, slot_world(cfg, a[i].pos, k))));
        assert(slot_world(cfg, a[i].pos, k) == w);
        assert(resolve_view(cfg, b, w) == b[i].tiles[k]);
    } else {
        if crate::chunk_managment::has_pos(b, c) {
            let i = crate::chunk_managment::idx_of(b, c);
            assert(b[i].pos == c && a[i].pos == c);
            assert(crate::chunk_managment::has_pos(a, c));
        }
        assert(resolve_view(cfg, a, w) is None);
        assert(resolve_view(cfg, b, w) is None);
    }
}

/// A chunk whose scanned slots are all empty emits nothing.
proof fn lemma_chunk_events_empty(cfg: WorldConfig, v: Seq<ChunkView>, cv: ChunkView, upto: int)
    requires
        forall|k: int| 0 <= k < upto ==> !(#[trigger] cv.tiles[k] is Some),
    ensures
        chunk_events(cfg, v, cv, upto) =~= Seq::<TileEvent>::empty(),
    decreases upto,
{
    if upto > 0 {
        lemma_chunk_events_empty(cfg, v, cv, upto - 1);
    }
}

/// A chunk whose only occupied slot is a dirt tile at slot `k0` emits
/// exactly that tile's events.
proof fn lemma_chunk_events_single(cfg: WorldConfig, v: Seq<ChunkView>, cv: ChunkView, upto: int, k0: int, src: WorldPos)
    requires
        0 <= k0,
        cv.tiles[k0] matches Some(t) && t.kind matches TileKind::Dirt(_),
        slot_world(cfg, cv.pos, k0) == src,
        forall|k: int| 0 <= k < upto && k != k0 ==> !(#[trigger] cv.tiles[k] is Some),
    ensures
        chunk_events(cfg, v, cv, upto) =~= (if k0 < upto { tile_events(cfg, v, src) } else { Seq::<TileEvent>::empty() }),
    decreases upto,
{
    if upto > 0 {
        lemma_chunk_events_single(cfg, v, cv, upto - 1, k0, src);
        if upto - 1 == k0 {
            lemma_chunk_events_empty(cfg, v, cv, upto - 1);
        }
    }
}

/// When one dirt tile in one active chunk is the only occupied slot of any
/// active chunk, a request pass emits exactly that tile's events.
proof fn lemma_sim_events_single(cfg: WorldConfig, v: Seq<ChunkView>, upto: int, i0: int, k0: int, src: WorldPos)
    requires
        cfg.wf(),
        view_wf(cfg, v),
        upto <= v.len(),
        0 <= i0 < v.len(),
        v[i0].state == ChunkState::Active,
        0 <= k0 < v[i0].tiles.len(),
        v[i0].tiles[k0] matches Some(t) && t.kind matches TileKind::Dirt(_),
        slot_world(cfg, v[i0].pos, k0) == src,
        forall|i: int, k: int| 0 <= i < v.len() && (#[trigger] v[i].state) == ChunkState::Active
            && 0 <= k < v[i].tiles.len() && (#[trigger] v[i].tiles[k]) is Some
            ==> i == i0 && k == k0,
    ensures
        sim_events_upto(cfg, v, upto) =~= (if i0 < upto { tile_events(cfg, v, src) } else { Seq::<TileEvent>::empty() }),
    decreases upto,
{
    if upto > 0 {
        lemma_sim_events_single(cfg, v, upto - 1, i0, k0, src);
        if upto - 1 == i0 {
            lemma_chunk_events_single(cfg, v, v[i0], v[i0].tiles.len() as int, k0, src);
        } else {
            if v[upto - 1].state == ChunkState::Active {
                assert forall|k: int| 0 <= k < v[upto - 1].tiles.len()
                    implies !(#[trigger] v[upto - 1].tiles[k] is Some) by {
                    if v[upto - 1].tiles[k] is Some {
                        assert(upto - 1 == i0);
                    }
                }
                lemma_chunk_events_empty(cfg, v, v[upto - 1], v[upto - 1].tiles.len() as int);
            }
        }
    }
}


/// A tile whose only existing neighbor is probe `j` emits exactly the one
/// transfer pair, whatever prefix of the probes is considered.
proof fn lemma_tile_events_single(cfg: WorldConfig, v: Seq<ChunkView>, src: WorldPos, snk: WorldPos, j: int, upto: int)
    requires
        0 <= j < 8,
        upto <= 8,
        snk == neighbor_seq(src)[j],
        forall|jj: int| 0 <= jj < 8 && jj != j ==> !(#[trigger] resolve_view(cfg, v, neighbor_seq(src)[jj]) is Some),
        resolve_view(cfg, v, snk) is Some,
    ensures
        tile_events_upto(cfg, v, src, upto) =~= (if j < upto { pair_events(src, snk) } else { Seq::<TileEvent>::empty() }),
    decreases upto,
{
    if upto > 0 {
        lemma_tile_events_single(cfg, v, src, snk, j, upto - 1);
        if upto - 1 != j {
            assert(!(resolve_view(cfg, v, neighbor_seq(src)[upto - 1]) is Some));
        }
    }
}

/// The net change of a two-event list is the sum of the two contributions.
proof fn lemma_net_pair(a: TileEvent, b: TileEvent, p: WorldPos)
    ensures
        net_m(seq![a, b], p) == delta_m(a, p) + delta_m(b, p),
        net_n(seq![a, b], p) == delta_n(a, p) + delta_n(b, p),
{
    let s = seq![a, b];
    let s1 = seq![a];
    assert(s.drop_last() =~= s1);
    assert(s1.drop_last() =~= Seq::<TileEvent>::empty());
    assert(net_m(Seq::<TileEvent>::empty(), p) == 0);
    assert(net_n(Seq::<TileEvent>::empty(), p) == 0);
    assert(net_m(s1, p) == net_m(s1.drop_last(), p) + delta_m(s1.last(), p));
    assert(net_n(s1, p) == net_n(s1.drop_last(), p) + delta_n(s1.last(), p));
    assert(net_m(s, p) == net_m(s.drop_last(), p) + delta_m(s.last(), p));
    assert(net_n(s, p) == net_n(s.drop_last(), p) + delta_n(s.last(), p));
}

/// Local conservation: when a single simulated dirt tile has exactly one
/// existing neighbor (itself not simulated), one tick moves exactly one unit
/// of moisture and one of nutrients from the source to the sink, except that
/// the transfer is clamped at the source's floor and the sink's ceiling --
/// the source never goes negative and the sink never exceeds its maximum.
pub proof fn lemma_local_conservation(cfg: WorldConfig, v: Seq<ChunkView>, b: Seq<ChunkView>, src: WorldPos, snk: WorldPos, j: int)
    requires
        cfg.wf(),
        view_wf(cfg, v),
        w_tight(src),
        0 <= j < 8,
        snk == neighbor_seq(src)[j],
        resolve_view(cfg, v, src) matches Some(t) && t.kind matches TileKind::Dirt(_),
        crate::chunk_managment::at_pos(v, wchunk(cfg, src)).state == ChunkState::Active,
        forall|i: int, k: int| 0 <= i < v.len() && (#[trigger] v[i].state) == ChunkState::Active
            && 0 <= k < v[i].tiles.len() && (#[trigger] v[i].tiles[k]) is Some
            ==> slot_world(cfg, v[i].pos, k) == src,
        forall|jj: int| 0 <= jj < 8 && jj != j ==> !(#[trigger] resolve_view(cfg, v, neighbor_seq(src)[jj]) is Some),
        resolve_view(cfg, v, snk) is Some,
        apply_rel(cfg, sim_events(cfg, v), v, b),
    ensures
        net_m(sim_events(cfg, v), src) == -1,
        net_n(sim_events(cfg, v), src) == -1,
        net_m(sim_events(cfg, v), snk) == 1,
        net_n(sim_events(cfg, v), snk) == 1,
        resolve_view(cfg, b, src) == apply_tile(resolve_view(cfg, v, src), -1, -1),
        resolve_view(cfg, b, snk) == apply_tile(resolve_view(cfg, v, snk), 1, 1),
{
    let c0 = wchunk(cfg, src);
    assert(crate::chunk_managment::has_pos(v, c0));
    lemma_resolve_slot(cfg, v, src);
    let i0 = crate::chunk_managment::idx_of(v, c0);
    let k0 = wslot(cfg, src);
    assert(v[i0].pos == c0);
    assert(v[i0].tiles[k0] == resolve_view(cfg, v, src));
    // every occupied active slot is the source slot
    assert forall|i: int, k: int| 0 <= i < v.len() && (#[trigger] v[i].state) == ChunkState::Active
        && 0 <= k < v[i].tiles.len() && (#[trigger] v[i].tiles[k]) is Some
        implies i == i0 && k == k0 by {
        assert(slot_world(cfg, v[i].pos, k) == src);
        assert(chunk_view_wf(cfg, v[i]));
        assert(chunk_view_wf(cfg, v[i0]));
        lemma_slot_world_inj(cfg, v[i].pos, k, v[i0].pos, k0);
        crate::chunk_managment::lemma_at_pos_unique(v, c0, i);
    }
    lemma_sim_events_single(cfg, v, v.len() as int, i0, k0, src);
    let evs = sim_events(cfg, v);
    assert(evs =~= tile_events(cfg, v, src));
    lemma_tile_events_single(cfg, v, src, snk, j, 8);
    let pe = pair_events(src, snk);
    assert(evs == pe);
    // the sink is a different coordinate from the source
    assert(snk != src);
    let ea = TileEvent::Add(snk, TileModifierDesc { moisture: 1, nutrients: 1 });
    let es = TileEvent::Subtract(src, TileModifierDesc { moisture: 1, nutrients: 1 });
    lemma_net_pair(ea, es, src);
    lemma_net_pair(ea, es, snk);
    assert(net_m(pe, src) == -1 && net_n(pe, src) == -1);
    assert(net_m(pe, snk) == 1 && net_n(pe, snk) == 1);
    lemma_net_congruent(evs, pe, src);
    lemma_net_congruent(evs, pe, snk);
    lemma_resolve_apply(cfg, evs, v, b, src);
    assert(w_near(snk));
    lemma_resolve_apply(cfg, evs, v, b, snk);
}

/// Equal event lists request equal net changes.
proof fn lemma_net_congruent(e1: Seq<TileEvent>, e2: Seq<TileEvent>, p: WorldPos)
    requires
        e1 == e2,
    ensures
        net_m(e1, p) == net_m(e2, p),
        net_n(e1, p) == net_n(e2, p),
{
}

} // verus!
