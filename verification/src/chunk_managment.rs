use vstd::prelude::*;
use crate::{WorldConfig, CHUNK_COORD_LIMIT, WORLD_COORD_LIMIT, CAMERA_LIMIT};
use crate::tiles::Tile;

verus! {

/// A tile coordinate in global tile space.
#[derive(Clone, Copy, Debug, PartialEq, Eq, Structural, Hash)]
pub struct WorldPos {
    pub x: i64,
    pub y: i64,
}

/// A chunk coordinate in the chunk-space grid.
#[derive(Clone, Copy, Debug, PartialEq, Eq, Structural, Hash)]
pub struct ChunkPos {
    pub x: i64,
    pub y: i64,
}

/// An in-chunk tile coordinate, unique within one chunk.
#[derive(Clone, Copy, Debug, PartialEq, Eq, Structural, Hash)]
pub struct TilePos {
    pub x: u32,
    pub y: u32,
}

/// An observer position in world pixel space.
#[derive(Clone, Copy, Debug, PartialEq, Eq, Structural, Hash)]
pub struct ObserverPos {
    pub x: i64,
    pub y: i64,
}

pub open spec fn pos_in_limit(p: ChunkPos) -> bool {
    &&& -CHUNK_COORD_LIMIT <= p.x <= CHUNK_COORD_LIMIT
    &&& -CHUNK_COORD_LIMIT <= p.y <= CHUNK_COORD_LIMIT
}

pub open spec fn world_in_limit(w: WorldPos) -> bool {
    &&& -WORLD_COORD_LIMIT <= w.x <= WORLD_COORD_LIMIT
    &&& -WORLD_COORD_LIMIT <= w.y <= WORLD_COORD_LIMIT
}

pub open spec fn tile_in_chunk(cfg: WorldConfig, t: TilePos) -> bool {
    t.x < cfg.chunk_w && t.y < cfg.chunk_h
}

/// Truncating division (rounding toward zero), the rounding that observer
/// positions are mapped to chunk coordinates with.
pub open spec fn trunc_div(a: int, b: int) -> int {
    if a >= 0 {
        a / b
    } else {
        -((-a) / b)
    }
}

/// World x-coordinate of the tile at `t` inside the chunk at `c`.
pub open spec fn ctw_x(cfg: WorldConfig, c: ChunkPos, t: TilePos) -> int {
    c.x * cfg.chunk_w + t.x
}

/// World y-coordinate of the tile at `t` inside the chunk at `c`.
pub open spec fn ctw_y(cfg: WorldConfig, c: ChunkPos, t: TilePos) -> int {
    c.y * cfg.chunk_h + t.y
}

/// Chunk x-coordinate owning world x-coordinate `wx`: floor division, so that
/// negative coordinates map to the chunk whose span contains them.
pub open spec fn wtc_cx(cfg: WorldConfig, wx: int) -> int {
    wx / (cfg.chunk_w as int)
}

pub open spec fn wtc_cy(cfg: WorldConfig, wy: int) -> int {
    wy / (cfg.chunk_h as int)
}

/// In-chunk x-coordinate of world x-coordinate `wx`.
pub open spec fn wtc_tx(cfg: WorldConfig, wx: int) -> int {
    wx - (cfg.chunk_w as int) * wtc_cx(cfg, wx)
}

pub open spec fn wtc_ty(cfg: WorldConfig, wy: int) -> int {
    wy - (cfg.chunk_h as int) * wtc_cy(cfg, wy)
}

/// Floor division of `a` by a positive divisor `b`: rounds toward negative
/// infinity, so a negative coordinate just left of a chunk boundary lands in
/// the chunk below it rather than the one above.
pub fn floor_div_i64(a: i64, b: i64) -> (q: i64)
    requires
        1 <= b <= 0x1_0000_0000,
        -0x4000_0000_0000_0000 <= a <= 0x4000_0000_0000_0000,
    ensures
        q == a as int / b as int,
        b * q <= a < b * q + b,
{
    if a >= 0 {
        let q = ((a as u64) / (b as u64)) as i64;
        proof {
            vstd::arithmetic::div_mod::lemma_fundamental_div_mod(a as int, b as int);
            vstd::arithmetic::div_mod::lemma_mod_division_less_than_divisor(a as int, b as int);
            vstd::arithmetic::div_mod::lemma_div_pos_is_pos(a as int, b as int);
            vstd::arithmetic::div_mod::lemma_div_is_ordered(a as int, 0x4000_0000_0000_0000, b as int);
            assert(0x4000_0000_0000_0000int / (b as int) <= 0x4000_0000_0000_0000) by (nonlinear_arith)
                requires 1 <= b as int;
        }
        q
    } else {
        let n: u64 = (-a) as u64;
        let d: u64 = b as u64;
        let m: u64 = n + d - 1;
        let qq: u64 = m / d;
        proof {
            vstd::arithmetic::div_mod::lemma_fundamental_div_mod(m as int, d as int);
            vstd::arithmetic::div_mod::lemma_mod_division_less_than_divisor(m as int, d as int);
            vstd::arithmetic::div_mod::lemma_div_pos_is_pos(m as int, d as int);
            // d * qq lies in [n, n + d - 1], so qq is at most m and fits i64.
            assert(qq as int <= d as int * (qq as int)) by (nonlinear_arith)
                requires 1 <= d as int, 0 <= qq as int;
        }
        let q = -(qq as i64);
        proof {
            assert((b as int) * (q as int) == -((d as int) * (qq as int))) by (nonlinear_arith)
                requires b as int == d as int, q as int == -(qq as int);
            assert(b * q <= a < b * q + b);
            vstd::arithmetic::div_mod::lemma_fundamental_div_mod_converse(
                a as int, b as int, q as int, a - b * q);
        }
        q
    }
}

/// Truncating division of `a` by a positive divisor `b`, rounding toward zero.
pub fn trunc_div_i64(a: i64, b: i64) -> (q: i64)
    requires
        1 <= b <= 0x1_0000_0000,
        -0x4000_0000_0000_0000 <= a <= 0x4000_0000_0000_0000,
    ensures
        q == trunc_div(a as int, b as int),
        a >= 0 ==> 0 <= q <= a,
        a < 0 ==> a <= q <= 0,
{
    if a >= 0 {
        let q = ((a as u64) / (b as u64)) as i64;
        proof {
            vstd::arithmetic::div_mod::lemma_fundamental_div_mod(a as int, b as int);
            vstd::arithmetic::div_mod::lemma_mod_division_less_than_divisor(a as int, b as int);
            vstd::arithmetic::div_mod::lemma_div_pos_is_pos(a as int, b as int);
            assert(a as int / (b as int) <= a as int) by (nonlinear_arith)
                requires 1 <= b as int, 0 <= a as int,
                    (b as int) * (a as int / b as int) <= a as int;
        }
        q
    } else {
        let n: u64 = (-a) as u64;
        let qq: u64 = n / (b as u64);
        proof {
            vstd::arithmetic::div_mod::lemma_fundamental_div_mod(n as int, b as int);
            vstd::arithmetic::div_mod::lemma_mod_division_less_than_divisor(n as int, b as int);
            vstd::arithmetic::div_mod::lemma_div_pos_is_pos(n as int, b as int);
            assert(n as int / (b as int) <= n as int) by (nonlinear_arith)
                requires 1 <= b as int, 0 <= n as int,
                    (b as int) * (n as int / b as int) <= n as int;
        }
        -(qq as i64)
    }
}

/// World tile coordinate of an in-chunk tile: `chunk * chunk_size + tile`.
pub fn chunk_pos_to_world_pos(cfg: &WorldConfig, chunk_pos: &ChunkPos, tile_pos: &TilePos) -> (r: WorldPos)
    requires
        cfg.wf(),
        pos_in_limit(*chunk_pos),
        tile_in_chunk(*cfg, *tile_pos),
    ensures
        r.x == ctw_x(*cfg, *chunk_pos, *tile_pos),
        r.y == ctw_y(*cfg, *chunk_pos, *tile_pos),
        world_in_limit(r),
        -(WORLD_COORD_LIMIT - 2) <= r.x <= WORLD_COORD_LIMIT - 2,
        -(WORLD_COORD_LIMIT - 2) <= r.y <= WORLD_COORD_LIMIT - 2,
{
    proof {
        assert(-(WORLD_COORD_LIMIT - 2) <= chunk_pos.x * (cfg.chunk_w as int) + tile_pos.x
            && chunk_pos.x * (cfg.chunk_w as int) + tile_pos.x <= WORLD_COORD_LIMIT - 2) by (nonlinear_arith)
            requires
                -CHUNK_COORD_LIMIT <= chunk_pos.x <= CHUNK_COORD_LIMIT,
                1 <= cfg.chunk_w as int <= 4096,
                0 <= tile_pos.x < cfg.chunk_w as int;
        assert(-(WORLD_COORD_LIMIT - 2) <= chunk_pos.y * (cfg.chunk_h as int) + tile_pos.y
            && chunk_pos.y * (cfg.chunk_h as int) + tile_pos.y <= WORLD_COORD_LIMIT - 2) by (nonlinear_arith)
            requires
                -CHUNK_COORD_LIMIT <= chunk_pos.y <= CHUNK_COORD_LIMIT,
                1 <= cfg.chunk_h as int <= 4096,
                0 <= tile_pos.y < cfg.chunk_h as int;
    }
    WorldPos {
        x: chunk_pos.x * (cfg.chunk_w as i64) + (tile_pos.x as i64),
        y: chunk_pos.y * (cfg.chunk_h as i64) + (tile_pos.y as i64),
    }
}

/// Splits a world tile coordinate into its owning chunk coordinate and the
/// in-chunk coordinate, by floor division with remainder.
pub fn world_pos_to_chunk_pos(cfg: &WorldConfig, tile_pos: &WorldPos) -> (r: (ChunkPos, TilePos))
    requires
        cfg.wf(),
        world_in_limit(*tile_pos),
    ensures
        r.0.x == wtc_cx(*cfg, tile_pos.x as int),
        r.0.y == wtc_cy(*cfg, tile_pos.y as int),
        r.1.x == wtc_tx(*cfg, tile_pos.x as int),
        r.1.y == wtc_ty(*cfg, tile_pos.y as int),
        tile_in_chunk(*cfg, r.1),
        -WORLD_COORD_LIMIT <= r.0.x <= WORLD_COORD_LIMIT,
        -WORLD_COORD_LIMIT <= r.0.y <= WORLD_COORD_LIMIT,
{
    proof {
        lemma_wtc_in_range(*cfg, *tile_pos);
    }
    let cx = floor_div_i64(tile_pos.x, cfg.chunk_w as i64);
    let cy = floor_div_i64(tile_pos.y, cfg.chunk_h as i64);
    let tx = tile_pos.x - cx * (cfg.chunk_w as i64);
    let ty = tile_pos.y - cy * (cfg.chunk_h as i64);
    (ChunkPos { x: cx, y: cy }, TilePos { x: tx as u32, y: ty as u32 })
}

/// Chunk coordinate under an observer pixel position: divides by the chunk
/// pixel span, truncating toward zero as the observer mapping always has.
pub fn camera_pos_to_chunk_pos(cfg: &WorldConfig, camera_pos: &ObserverPos) -> (r: ChunkPos)
    requires
        cfg.wf(),
        -CAMERA_LIMIT <= camera_pos.x <= CAMERA_LIMIT,
        -CAMERA_LIMIT <= camera_pos.y <= CAMERA_LIMIT,
    ensures
        r.x == trunc_div(camera_pos.x as int, cfg.chunk_w * cfg.tile_w),
        r.y == trunc_div(camera_pos.y as int, cfg.chunk_h * cfg.tile_h),
        camera_pos.x >= 0 ==> 0 <= r.x <= camera_pos.x,
        camera_pos.x < 0 ==> camera_pos.x <= r.x <= 0,
{
    proof {
        assert(1 <= (cfg.chunk_w as int) * (cfg.tile_w as int) <= 0x1_0000_0000) by (nonlinear_arith)
            requires 1 <= cfg.chunk_w as int <= 4096, 1 <= cfg.tile_w as int <= 4096;
        assert(1 <= (cfg.chunk_h as int) * (cfg.tile_h as int) <= 0x1_0000_0000) by (nonlinear_arith)
            requires 1 <= cfg.chunk_h as int <= 4096, 1 <= cfg.tile_h as int <= 4096;
    }
    let span_x = (cfg.chunk_w as i64) * (cfg.tile_w as i64);
    let span_y = (cfg.chunk_h as i64) * (cfg.tile_h as i64);
    let qx = trunc_div_i64(camera_pos.x, span_x);
    let qy = trunc_div_i64(camera_pos.y, span_y);
    ChunkPos { x: qx, y: qy }
}

/// The chunk-and-tile pair of a world coordinate maps back to that same world
/// coordinate: the transform pair is a bijection between global tile space and
/// (chunk, in-chunk) space.
pub proof fn lemma_transform_inverse(cfg: WorldConfig, w: WorldPos)
    requires
        cfg.wf(),
        world_in_limit(w),
    ensures
        ctw_x(cfg, ChunkPos { x: wtc_cx(cfg, w.x as int) as i64, y: wtc_cy(cfg, w.y as int) as i64 },
              TilePos { x: wtc_tx(cfg, w.x as int) as u32, y: wtc_ty(cfg, w.y as int) as u32 }) == w.x,
        ctw_y(cfg, ChunkPos { x: wtc_cx(cfg, w.x as int) as i64, y: wtc_cy(cfg, w.y as int) as i64 },
              TilePos { x: wtc_tx(cfg, w.x as int) as u32, y: wtc_ty(cfg, w.y as int) as u32 }) == w.y,
        0 <= wtc_tx(cfg, w.x as int) < cfg.chunk_w,
        0 <= wtc_ty(cfg, w.y as int) < cfg.chunk_h,
{
    lemma_wtc_in_range(cfg, w);
    let cx = wtc_cx(cfg, w.x as int);
    let cy = wtc_cy(cfg, w.y as int);
    let tx = wtc_tx(cfg, w.x as int);
    let ty = wtc_ty(cfg, w.y as int);
    assert(cx as i64 == cx && cy as i64 == cy);
    assert(tx as u32 == tx && ty as u32 == ty);
    assert((cx as i64) * (cfg.chunk_w as int) == (cfg.chunk_w as int) * cx) by (nonlinear_arith)
        requires cx as i64 == cx;
    assert((cy as i64) * (cfg.chunk_h as int) == (cfg.chunk_h as int) * cy) by (nonlinear_arith)
        requires cy as i64 == cy;
}

/// The floor-division split always yields an in-chunk coordinate inside the
/// chunk and a chunk coordinate no larger in magnitude than the input.
pub proof fn lemma_wtc_in_range(cfg: WorldConfig, w: WorldPos)
    requires
        cfg.wf(),
        world_in_limit(w),
    ensures
        0 <= wtc_tx(cfg, w.x as int) < cfg.chunk_w,
        0 <= wtc_ty(cfg, w.y as int) < cfg.chunk_h,
        -WORLD_COORD_LIMIT <= wtc_cx(cfg, w.x as int) <= WORLD_COORD_LIMIT,
        -WORLD_COORD_LIMIT <= wtc_cy(cfg, w.y as int) <= WORLD_COORD_LIMIT,
        (cfg.chunk_w as int) * wtc_cx(cfg, w.x as int) + wtc_tx(cfg, w.x as int) == w.x,
        (cfg.chunk_h as int) * wtc_cy(cfg, w.y as int) + wtc_ty(cfg, w.y as int) == w.y,
{
    vstd::arithmetic::div_mod::lemma_fundamental_div_mod(w.x as int, cfg.chunk_w as int);
    vstd::arithmetic::div_mod::lemma_fundamental_div_mod(w.y as int, cfg.chunk_h as int);
    vstd::arithmetic::div_mod::lemma_mod_division_less_than_divisor(w.x as int, cfg.chunk_w as int);
    vstd::arithmetic::div_mod::lemma_mod_division_less_than_divisor(w.y as int, cfg.chunk_h as int);
    assert(-WORLD_COORD_LIMIT <= wtc_cx(cfg, w.x as int) <= WORLD_COORD_LIMIT) by (nonlinear_arith)
        requires
            (cfg.chunk_w as int) * wtc_cx(cfg, w.x as int) + (w.x - (cfg.chunk_w as int) * wtc_cx(cfg, w.x as int)) == w.x,
            0 <= w.x - (cfg.chunk_w as int) * wtc_cx(cfg, w.x as int) < cfg.chunk_w as int,
            1 <= cfg.chunk_w as int <= 4096,
            -WORLD_COORD_LIMIT <= w.x <= WORLD_COORD_LIMIT;
    assert(-WORLD_COORD_LIMIT <= wtc_cy(cfg, w.y as int) <= WORLD_COORD_LIMIT) by (nonlinear_arith)
        requires
            (cfg.chunk_h as int) * wtc_cy(cfg, w.y as int) + (w.y - (cfg.chunk_h as int) * wtc_cy(cfg, w.y as int)) == w.y,
            0 <= w.y - (cfg.chunk_h as int) * wtc_cy(cfg, w.y as int) < cfg.chunk_h as int,
            1 <= cfg.chunk_h as int <= 4096,
            -WORLD_COORD_LIMIT <= w.y <= WORLD_COORD_LIMIT;
}

/// Lifecycle state of a chunk that is present in the registry.
#[derive(Clone, Copy, Debug, PartialEq, Eq, Structural)]
pub enum ChunkState {
    /// The chunk's tiles are simulated each tick.
    Active,
    /// The chunk exists but its tiles are not simulated.
    Dormant,
}

/// A fixed-size rectangular tile grid with its lifecycle state. Tile slots
/// are stored densely, row by row.
pub struct Chunk {
    pub state: ChunkState,
    pub tiles: Vec<Option<Tile>>,
}

/// One registry entry: a chunk and the chunk coordinate it sits at.
pub struct ChunkEntry {
    pub pos: ChunkPos,
    pub chunk: Chunk,
}

/// The chunk registry: the single source of truth for which chunks exist.
pub struct ChunkManager {
    pub spawned_chunks: Vec<ChunkEntry>,
}

/// The mathematical image of one registry entry.
pub struct ChunkView {
    pub pos: ChunkPos,
    pub state: ChunkState,
    pub tiles: Seq<Option<Tile>>,
}

pub open spec fn entry_view(e: ChunkEntry) -> ChunkView {
    ChunkView { pos: e.pos, state: e.chunk.state, tiles: e.chunk.tiles@ }
}

pub open spec fn entries_view(s: Seq<ChunkEntry>) -> Seq<ChunkView> {
    s.map_values(|e: ChunkEntry| entry_view(e))
}

/// The mathematical image of the whole registry.
pub open spec fn mgr_view(m: ChunkManager) -> Seq<ChunkView> {
    entries_view(m.spawned_chunks@)
}

/// No two entries sit at the same chunk coordinate.
pub open spec fn distinct_pos(v: Seq<ChunkView>) -> bool {
    forall|i: int, j: int| 0 <= i < j < v.len() ==> v[i].pos != v[j].pos
}

/// Some entry sits at coordinate `p`.
pub open spec fn has_pos(v: Seq<ChunkView>, p: ChunkPos) -> bool {
    exists|i: int| 0 <= i < v.len() && v[i].pos == p
}

pub open spec fn idx_of(v: Seq<ChunkView>, p: ChunkPos) -> int {
    choose|i: int| 0 <= i < v.len() && v[i].pos == p
}

/// The entry at coordinate `p`; meaningful when `has_pos(v, p)` holds.
pub open spec fn at_pos(v: Seq<ChunkView>, p: ChunkPos) -> ChunkView {
    v[idx_of(v, p)]
}

impl Default for ChunkManager {
    /// An empty registry.
    fn default() -> (m: Self)
        ensures
            mgr_view(m) == Seq::<ChunkView>::empty(),
    {
        let m = ChunkManager { spawned_chunks: Vec::new() };
        proof {
            assert(mgr_view(m) =~= Seq::<ChunkView>::empty());
        }
        m
    }
}

/// With distinct coordinates, any entry whose coordinate is `p` is the entry
/// that `at_pos` denotes.
pub proof fn lemma_at_pos_unique(v: Seq<ChunkView>, p: ChunkPos, i: int)
    requires
        distinct_pos(v),
        0 <= i < v.len(),
        v[i].pos == p,
    ensures
        has_pos(v, p),
        idx_of(v, p) == i,
        at_pos(v, p) == v[i],
{
    assert(has_pos(v, p));
    let j = idx_of(v, p);
    assert(0 <= j < v.len() && v[j].pos == p);
    if i < j {
        assert(v[i].pos != v[j].pos);
    } else if j < i {
        assert(v[j].pos != v[i].pos);
    }
}

/// A well-formed chunk: its coordinate is in range and it owns exactly one
/// well-formed tile slot per cell of the chunk grid.
pub open spec fn chunk_view_wf(cfg: WorldConfig, cv: ChunkView) -> bool {
    &&& pos_in_limit(cv.pos)
    &&& cv.tiles.len() == (cfg.chunk_w as int) * (cfg.chunk_h as int)
    &&& forall|k: int| 0 <= k < cv.tiles.len() ==> (#[trigger] cv.tiles[k] matches Some(t) ==> t.wf())
}

pub open spec fn view_wf(cfg: WorldConfig, v: Seq<ChunkView>) -> bool {
    &&& distinct_pos(v)
    &&& forall|i: int| 0 <= i < v.len() ==> chunk_view_wf(cfg, #[trigger] v[i])
}

/// Row-major index of an in-chunk coordinate in the dense tile storage.
pub open spec fn tile_index(cfg: WorldConfig, tx: int, ty: int) -> int {
    ty * cfg.chunk_w + tx
}

/// The tile (if any) at a world coordinate: the owning chunk is looked up by
/// floor division and the in-chunk slot is read from its dense storage.
/// Absent chunk or empty slot both mean "no tile", never an error.
pub open spec fn resolve_view(cfg: WorldConfig, v: Seq<ChunkView>, w: WorldPos) -> Option<Tile> {
    let c = ChunkPos { x: wtc_cx(cfg, w.x as int) as i64, y: wtc_cy(cfg, w.y as int) as i64 };
    if has_pos(v, c) {
        let cv = at_pos(v, c);
        let k = tile_index(cfg, wtc_tx(cfg, w.x as int), wtc_ty(cfg, w.y as int));
        if 0 <= k < cv.tiles.len() {
            cv.tiles[k]
        } else {
            None
        }
    } else {
        None
    }
}

impl ChunkManager {
    /// A well-formed registry: distinct coordinates, all chunks well formed.
    pub open spec fn wf(self, cfg: WorldConfig) -> bool {
        view_wf(cfg, mgr_view(self))
    }

    /// An empty registry.
    pub fn new() -> (m: ChunkManager)
        ensures
            mgr_view(m) =~= Seq::<ChunkView>::empty(),
    {
        ChunkManager { spawned_chunks: Vec::new() }
    }

    /// Index of the entry at `p`, if one exists.
    fn find_idx(&self, p: &ChunkPos) -> (r: Option<usize>)
        ensures
            match r {
                Some(i) => i < self.spawned_chunks@.len() && mgr_view(*self)[i as int].pos == *p,
                None => !has_pos(mgr_view(*self), *p),
            },
    {
        let mut i: usize = 0;
        while i < self.spawned_chunks.len()
            invariant
                i <= self.spawned_chunks@.len(),
                forall|j: int| 0 <= j < i ==> mgr_view(*self)[j].pos != *p,
            decreases self.spawned_chunks@.len() - i,
        {
            let e = &self.spawned_chunks[i];
            if e.pos.x == p.x && e.pos.y == p.y {
                proof {
                    assert(mgr_view(*self)[i as int].pos == *p);
                }
                return Some(i);
            }
            i = i + 1;
        }
        None
    }

    /// Whether a chunk exists at coordinate `p`.
    pub fn contains_key(&self, p: &ChunkPos) -> (r: bool)
        ensures
            r == has_pos(mgr_view(*self), *p),
    {
        match self.find_idx(p) {
            Some(i) => {
                proof {
                    assert(0 <= (i as int) && (i as int) < mgr_view(*self).len() && mgr_view(*self)[i as int].pos == *p);
                }
                true
            }
            None => false,
        }
    }

    /// The chunk at coordinate `p`, if present.
    pub fn get_chunk(&self, p: &ChunkPos) -> (r: Option<&Chunk>)
        requires
            distinct_pos(mgr_view(*self)),
        ensures
            match r {
                Some(c) => has_pos(mgr_view(*self), *p)
                    && c.state == at_pos(mgr_view(*self), *p).state
                    && c.tiles@ == at_pos(mgr_view(*self), *p).tiles,
                None => !has_pos(mgr_view(*self), *p),
            },
    {
        match self.find_idx(p) {
            Some(i) => {
                proof {
                    lemma_at_pos_unique(mgr_view(*self), *p, i as int);
                }
                Some(&self.spawned_chunks[i].chunk)
            }
            None => None,
        }
    }

    /// Registers a chunk at a coordinate not yet present.
    pub fn insert(&mut self, p: ChunkPos, c: Chunk)
        requires
            !has_pos(mgr_view(*old(self)), p),
        ensures
            mgr_view(*final(self)) == mgr_view(*old(self)).push(
                ChunkView { pos: p, state: c.state, tiles: c.tiles@ }),
    {
        let ghost st = c.state;
        let ghost tv = c.tiles@;
        self.spawned_chunks.push(ChunkEntry { pos: p, chunk: c });
        proof {
            assert(mgr_view(*self) =~= mgr_view(*old(self)).push(
                ChunkView { pos: p, state: st, tiles: tv }));
        }
    }

    /// Removes and returns the chunk at `p`, if present.
    pub fn remove(&mut self, p: &ChunkPos) -> (r: Option<Chunk>)
        requires
            distinct_pos(mgr_view(*old(self))),
        ensures
            match r {
                Some(c) => has_pos(mgr_view(*old(self)), *p)
                    && c.state == at_pos(mgr_view(*old(self)), *p).state
                    && c.tiles@ == at_pos(mgr_view(*old(self)), *p).tiles
                    && mgr_view(*final(self)) == mgr_view(*old(self)).remove(idx_of(mgr_view(*old(self)), *p)),
                None => !has_pos(mgr_view(*old(self)), *p)
                    && mgr_view(*final(self)) == mgr_view(*old(self)),
            },
    {
        match self.find_idx(p) {
            Some(i) => {
                proof {
                    lemma_at_pos_unique(mgr_view(*self), *p, i as int);
                }
                let e = self.spawned_chunks.remove(i);
                proof {
                    assert(mgr_view(*self) =~= mgr_view(*old(self)).remove(i as int));
                }
                Some(e.chunk)
            }
            None => None,
        }
    }

    /// Resolves a world tile coordinate to the tile stored there, composing
    /// the coordinate transform with the chunk lookup. Returns `None` for any
    /// coordinate whose owning chunk is absent or whose slot is empty.
    pub fn get(&self, cfg: &WorldConfig, world_position: &WorldPos) -> (r: Option<Tile>)
        requires
            cfg.wf(),
            self.wf(*cfg),
            world_in_limit(*world_position),
        ensures
            r == resolve_view(*cfg, mgr_view(*self), *world_position),
    {
        let (chunk_pos, tile_in_chunk_pos) = world_pos_to_chunk_pos(cfg, world_position);
        match self.get_chunk(&chunk_pos) {
            Some(chunk) => {
                proof {
                    let v = mgr_view(*self);
                    let i = idx_of(v, chunk_pos);
                    assert(chunk_view_wf(*cfg, v[i]));
                    let ti = (tile_in_chunk_pos.y as int) * (cfg.chunk_w as int) + (tile_in_chunk_pos.x as int);
                    assert(0 <= ti && ti < (cfg.chunk_w as int) * (cfg.chunk_h as int)
                        && (cfg.chunk_w as int) * (cfg.chunk_h as int) <= 0x100_0000) by (nonlinear_arith)
                        requires
                            ti == (tile_in_chunk_pos.y as int) * (cfg.chunk_w as int) + (tile_in_chunk_pos.x as int),
                            0 <= tile_in_chunk_pos.x && (tile_in_chunk_pos.x as int) < cfg.chunk_w as int,
                            0 <= tile_in_chunk_pos.y && (tile_in_chunk_pos.y as int) < cfg.chunk_h as int,
                            1 <= cfg.chunk_w as int <= 4096,
                            1 <= cfg.chunk_h as int <= 4096;
                }
                let k = (tile_in_chunk_pos.y as usize) * (cfg.chunk_w as usize)
                    + (tile_in_chunk_pos.x as usize);
                if k < chunk.tiles.len() {
                    chunk.tiles[k]
                } else {
                    None
                }
            }
            None => None,
        }
    }
}

/// Pixel x-coordinate of a chunk's world-space anchor.
pub open spec fn anchor_x(cfg: WorldConfig, p: ChunkPos) -> int {
    p.x * (cfg.chunk_w as int) * (cfg.tile_w as int)
}

/// Streaming distance of a chunk from an observer: the absolute difference
/// along the streaming axis between the observer and the chunk's anchor.
pub open spec fn dist_x(cfg: WorldConfig, cam_x: int, p: ChunkPos) -> int {
    if cam_x - anchor_x(cfg, p) < 0 {
        anchor_x(cfg, p) - cam_x
    } else {
        cam_x - anchor_x(cfg, p)
    }
}

/// The chunk a freshly spawned entry holds: active, every slot populated
/// with a default dirt tile.
pub open spec fn fresh_view(cfg: WorldConfig, p: ChunkPos) -> ChunkView {
    ChunkView {
        pos: p,
        state: ChunkState::Active,
        tiles: Seq::new(((cfg.chunk_w as int) * (cfg.chunk_h as int)) as nat,
            |k: int| Some(Tile::default_dirt())),
    }
}

/// Chunk x-coordinate of the observer, the center of the spawn window.
pub open spec fn spawn_window_x(cfg: WorldConfig, obs: ObserverPos) -> int {
    trunc_div(obs.x as int, (cfg.chunk_w as int) * (cfg.tile_w as int))
}

/// Whether `p` lies in the half-open spawn window of chunk x-offsets around
/// the observer; streaming is one-dimensional, so y is pinned to 0.
pub open spec fn in_window(cfg: WorldConfig, obs: ObserverPos, p: ChunkPos) -> bool {
    p.y == 0 && spawn_window_x(cfg, obs) - 2 <= p.x < spawn_window_x(cfg, obs) + 2
}

/// Observer positions that keep the spawn window within the chunk
/// coordinate limit.
pub open spec fn obs_in_limit(obs: ObserverPos) -> bool {
    &&& -(CHUNK_COORD_LIMIT - 4) <= obs.x <= CHUNK_COORD_LIMIT - 4
    &&& -CAMERA_LIMIT <= obs.y <= CAMERA_LIMIT
}

/// What one spawn pass does to the registry: every already-present entry is
/// kept unchanged in place, fresh active chunks are appended for exactly the
/// spawn-window coordinates that were missing, and afterwards the whole
/// window is present.
pub open spec fn spawn_rel(cfg: WorldConfig, obs: ObserverPos, a: Seq<ChunkView>, b: Seq<ChunkView>) -> bool {
    &&& a.len() <= b.len()
    &&& b.take(a.len() as int) == a
    &&& forall|k: int| a.len() <= k < b.len() ==> (#[trigger] b[k]) == fresh_view(cfg, b[k].pos)
        && in_window(cfg, obs, b[k].pos) && !has_pos(a, b[k].pos)
    &&& forall|x: int| spawn_window_x(cfg, obs) - 2 <= x < spawn_window_x(cfg, obs) + 2
        ==> #[trigger] has_pos(b, (ChunkPos { x: x as i64, y: 0 }))
    &&& distinct_pos(b)
}

/// The fate of one registry entry under one activity pass for an observer at
/// pixel x-coordinate `cam_x`: an active chunk beyond the simulation range
/// goes dormant; a dormant chunk beyond the spawn range is despawned, and one
/// back inside the simulation range wakes. Tiles are never touched.
pub open spec fn next_view(cfg: WorldConfig, cam_x: int, cv: ChunkView) -> Option<ChunkView> {
    let d = dist_x(cfg, cam_x, cv.pos);
    match cv.state {
        ChunkState::Active => if d > cfg.sim_range {
            Some(ChunkView { pos: cv.pos, state: ChunkState::Dormant, tiles: cv.tiles })
        } else {
            Some(cv)
        },
        ChunkState::Dormant => if d > cfg.spawn_range {
            None
        } else if d < cfg.sim_range {
            Some(ChunkView { pos: cv.pos, state: ChunkState::Active, tiles: cv.tiles })
        } else {
            Some(cv)
        },
    }
}

/// What one activity pass does to the registry, as a map from chunk
/// coordinates to entries: exactly the entries whose fate is not despawn
/// remain, each replaced by its fate.
pub open spec fn activity_rel(cfg: WorldConfig, cam_x: int, a: Seq<ChunkView>, b: Seq<ChunkView>) -> bool {
    &&& distinct_pos(b)
    &&& forall|p: ChunkPos| #[trigger] has_pos(b, p) ==> has_pos(a, p)
        && (next_view(cfg, cam_x, at_pos(a, p)) matches Some(nv) && at_pos(b, p) == nv)
    &&& forall|p: ChunkPos| #[trigger] has_pos(a, p)
        ==> ((next_view(cfg, cam_x, at_pos(a, p)) is Some) ==> has_pos(b, p))
}

/// Membership in a sequence extended by one entry.
pub proof fn lemma_has_pos_push(v: Seq<ChunkView>, e: ChunkView, p: ChunkPos)
    ensures
        has_pos(v.push(e), p) <==> (has_pos(v, p) || e.pos == p),
{
    if has_pos(v, p) {
        let i = idx_of(v, p);
        assert(v.push(e)[i] == v[i]);
        assert(has_pos(v.push(e), p));
    }
    if e.pos == p {
        assert(v.push(e)[v.len() as int] == e);
        assert(has_pos(v.push(e), p));
    }
    if has_pos(v.push(e), p) && e.pos != p {
        let i = idx_of(v.push(e), p);
        assert(v.push(e)[i].pos == p);
        assert(i < v.len());
        assert(has_pos(v, p));
    }
}

/// Builds the chunk a spawn places at a coordinate: a full grid of fresh
/// dirt tiles, registered as active.
pub fn spawn_chunk(cfg: &WorldConfig) -> (c: Chunk)
    requires
        cfg.wf(),
    ensures
        c.state == ChunkState::Active,
        c.tiles@.len() == (cfg.chunk_w as int) * (cfg.chunk_h as int),
        forall|k: int| 0 <= k < c.tiles@.len() ==> c.tiles@[k] == Some(Tile::default_dirt()),
{
    proof {
        assert(1 <= (cfg.chunk_w as int) * (cfg.chunk_h as int) <= 0x100_0000) by (nonlinear_arith)
            requires 1 <= cfg.chunk_w as int <= 4096, 1 <= cfg.chunk_h as int <= 4096;
    }
    let n: usize = (cfg.chunk_w as usize) * (cfg.chunk_h as usize);
    let mut tiles: Vec<Option<Tile>> = Vec::new();
    let mut i: usize = 0;
    while i < n
        invariant
            i <= n,
            tiles@.len() == i,
            forall|k: int| 0 <= k < i ==> tiles@[k] == Some(Tile::default_dirt()),
        decreases n - i,
    {
        tiles.push(Some(Tile::create_tile()));
        i = i + 1;
    }
    Chunk { state: ChunkState::Active, tiles }
}

/// Spawns a fresh chunk at `p` unless one is already registered there.
fn ensure_chunk(cfg: &WorldConfig, m: &mut ChunkManager, p: ChunkPos)
    requires
        cfg.wf(),
        old(m).wf(*cfg),
        pos_in_limit(p),
    ensures
        view_wf(*cfg, mgr_view(*final(m))),
        mgr_view(*final(m)) == (if has_pos(mgr_view(*old(m)), p) {
            mgr_view(*old(m))
        } else {
            mgr_view(*old(m)).push(fresh_view(*cfg, p))
        }),
        forall|q: ChunkPos| #[trigger] has_pos(mgr_view(*final(m)), q)
            <==> (has_pos(mgr_view(*old(m)), q) || q == p),
{
    let ghost a = mgr_view(*old(m));
    if !m.contains_key(&p) {
        let c = spawn_chunk(cfg);
        proof {
            assert(c.tiles@ =~= fresh_view(*cfg, p).tiles);
        }
        m.insert(p, c);
        proof {
            assert(mgr_view(*m) == a.push(fresh_view(*cfg, p)));
            lemma_has_pos_push(a, fresh_view(*cfg, p), p);
            assert forall|q: ChunkPos| #[trigger] has_pos(mgr_view(*m), q)
                <==> (has_pos(a, q) || q == p) by {
                lemma_has_pos_push(a, fresh_view(*cfg, p), q);
            }
            assert forall|i: int, j: int| 0 <= i < j < mgr_view(*m).len()
                implies mgr_view(*m)[i].pos != mgr_view(*m)[j].pos by {
                if j == a.len() {
                    if mgr_view(*m)[i].pos == p {
                        assert(has_pos(a, p));
                    }
                }
            }
            assert forall|i: int| 0 <= i < mgr_view(*m).len()
                implies chunk_view_wf(*cfg, mgr_view(*m)[i]) by {
                if i == a.len() {
                    assert(mgr_view(*m)[i] == fresh_view(*cfg, p));
                }
            }
        }
    } else {
        proof {
            assert forall|q: ChunkPos| #[trigger] has_pos(mgr_view(*m), q)
                <==> (has_pos(a, q) || q == p) by {}
        }
    }
}

/// One spawn pass for one observer: every chunk coordinate in the spawn
/// window along the streaming axis that is not yet registered gets a fresh
/// active chunk.
pub fn spawn_chunks_around_camera(cfg: &WorldConfig, m: &mut ChunkManager, camera_pos: &ObserverPos)
    requires
        cfg.wf(),
        old(m).wf(*cfg),
        obs_in_limit(*camera_pos),
    ensures
        view_wf(*cfg, mgr_view(*final(m))),
        spawn_rel(*cfg, *camera_pos, mgr_view(*old(m)), mgr_view(*final(m))),
{
    let ghost a = mgr_view(*old(m));
    let camera_chunk_pos = camera_pos_to_chunk_pos(cfg, camera_pos);
    let cx = camera_chunk_pos.x;
    proof {
        assert(cx as int == spawn_window_x(*cfg, *camera_pos));
    }
    let p0 = ChunkPos { x: cx - 2, y: 0 };
    let p1 = ChunkPos { x: cx - 1, y: 0 };
    let p2 = ChunkPos { x: cx, y: 0 };
    let p3 = ChunkPos { x: cx + 1, y: 0 };
    ensure_chunk(cfg, m, p0);
    ensure_chunk(cfg, m, p1);
    ensure_chunk(cfg, m, p2);
    ensure_chunk(cfg, m, p3);
    proof {
        let b = mgr_view(*m);
        assert(b.take(a.len() as int) =~= a);
        assert forall|x: int| spawn_window_x(*cfg, *camera_pos) - 2 <= x < spawn_window_x(*cfg, *camera_pos) + 2
            implies #[trigger] has_pos(b, (ChunkPos { x: x as i64, y: 0 })) by {
            assert(x == cx - 2 || x == cx - 1 || x == cx || x == cx + 1);
            assert((ChunkPos { x: (cx - 2) as i64, y: 0 }) == p0);
            assert((ChunkPos { x: (cx - 1) as i64, y: 0 }) == p1);
            assert((ChunkPos { x: cx as i64, y: 0 }) == p2);
            assert((ChunkPos { x: (cx + 1) as i64, y: 0 }) == p3);
        }
    }
}

/// One activity pass for an observer at pixel x-coordinate `camera_x`:
/// re-evaluates every chunk's distance band, putting far active chunks to
/// sleep, waking near dormant ones, and despawning dormant chunks beyond the
/// spawn range together with all their tiles.
pub fn set_chunk_activity(cfg: &WorldConfig, m: &mut ChunkManager, camera_x: i64)
    requires
        cfg.wf(),
        old(m).wf(*cfg),
        -CAMERA_LIMIT <= camera_x <= CAMERA_LIMIT,
    ensures
        view_wf(*cfg, mgr_view(*final(m))),
        activity_rel(*cfg, camera_x as int, mgr_view(*old(m)), mgr_view(*final(m))),
{
    let ghost orig = mgr_view(*old(m));
    let n0 = m.spawned_chunks.len();
    proof {
        assert(orig.len() == n0);
    }
    let mut out: Vec<ChunkEntry> = Vec::new();
    let mut i: usize = 0;
    while m.spawned_chunks.len() > 0
        invariant
            cfg.wf(),
            view_wf(*cfg, orig),
            -CAMERA_LIMIT <= camera_x <= CAMERA_LIMIT,
            orig.len() <= usize::MAX,
            i + m.spawned_chunks@.len() == orig.len(),
            entries_view(m.spawned_chunks@) == orig.skip(i as int),
            distinct_pos(entries_view(out@)),
            forall|j: int| 0 <= j < out@.len() ==> chunk_view_wf(*cfg, #[trigger] entries_view(out@)[j]),
            forall|p: ChunkPos| #[trigger] has_pos(entries_view(out@), p) ==> has_pos(orig, p)
                && idx_of(orig, p) < i
                && (next_view(*cfg, camera_x as int, at_pos(orig, p)) matches Some(nv)
                    && at_pos(entries_view(out@), p) == nv),
            forall|p: ChunkPos| #[trigger] has_pos(orig, p) && idx_of(orig, p) < i
                && (next_view(*cfg, camera_x as int, at_pos(orig, p)) is Some)
                ==> has_pos(entries_view(out@), p),
        decreases m.spawned_chunks@.len(),
    {
        let ghost ov = entries_view(out@);
        let ghost old_entries = m.spawned_chunks@;
        let e = m.spawned_chunks.remove(0);
        proof {
            assert(orig.skip(i as int)[0] == entry_view(e));
            assert(orig[i as int] == entry_view(e));
            assert forall|j: int| 0 <= j < m.spawned_chunks@.len()
                implies entries_view(m.spawned_chunks@)[j] == orig.skip(i as int + 1)[j] by {
                assert(entries_view(m.spawned_chunks@)[j] == entry_view(m.spawned_chunks@[j]));
                assert(m.spawned_chunks@[j] == old_entries[j + 1]);
                assert(entries_view(old_entries)[j + 1] == entry_view(old_entries[j + 1]));
                assert(entries_view(old_entries)[j + 1] == orig.skip(i as int)[j + 1]);
            }
            assert(entries_view(m.spawned_chunks@) =~= orig.skip(i as int + 1));
            assert(chunk_view_wf(*cfg, orig[i as int]));
            assert(anchor_x(*cfg, e.pos) == e.pos.x * (cfg.chunk_w as int) * (cfg.tile_w as int));
            assert(-0x100_0000_0000_0000 <= e.pos.x * (cfg.chunk_w as int) * (cfg.tile_w as int)
                <= 0x100_0000_0000_0000) by (nonlinear_arith)
                requires
                    -CHUNK_COORD_LIMIT <= e.pos.x <= CHUNK_COORD_LIMIT,
                    CHUNK_COORD_LIMIT == 0x4000_0000i64,
                    1 <= cfg.chunk_w as int <= 4096,
                    1 <= cfg.tile_w as int <= 4096;
        }
        proof {
            assert(-0x4000_0000_0000 <= e.pos.x * (cfg.chunk_w as int)
                && e.pos.x * (cfg.chunk_w as int) <= 0x4000_0000_0000) by (nonlinear_arith)
                requires
                    -CHUNK_COORD_LIMIT <= e.pos.x <= CHUNK_COORD_LIMIT,
                    CHUNK_COORD_LIMIT == 0x4000_0000i64,
                    1 <= cfg.chunk_w as int <= 4096;
        }
        let anchor = e.pos.x * (cfg.chunk_w as i64) * (cfg.tile_w as i64);
        let diff = camera_x - anchor;
        let d = if diff < 0 { -diff } else { diff };
        proof {
            assert(d as int == dist_x(*cfg, camera_x as int, e.pos));
        }
        let ghost nxt = next_view(*cfg, camera_x as int, entry_view(e));
        let keep: bool;
        let new_state: ChunkState;
        match e.chunk.state {
            ChunkState::Active => {
                if d > cfg.sim_range {
                    keep = true;
                    new_state = ChunkState::Dormant;
                } else {
                    keep = true;
                    new_state = ChunkState::Active;
                }
            }
            ChunkState::Dormant => {
                if d > cfg.spawn_range {
                    keep = false;
                    new_state = ChunkState::Dormant;
                } else if d < cfg.sim_range {
                    keep = true;
                    new_state = ChunkState::Active;
                } else {
                    keep = true;
                    new_state = ChunkState::Dormant;
                }
            }
        }
        if keep {
            let ne = ChunkEntry { pos: e.pos, chunk: Chunk { state: new_state, tiles: e.chunk.tiles } };
            proof {
                assert(nxt matches Some(nv) && entry_view(ne) == nv);
            }
            out.push(ne);
            proof {
                assert(entries_view(out@) =~= ov.push(entry_view(ne)));
                if has_pos(ov, ne.pos) {
                    assert(idx_of(orig, ne.pos) < i);
                    lemma_at_pos_unique(orig, ne.pos, i as int);
                    assert(false);
                }
                lemma_at_pos_unique(orig, ne.pos, i as int);
                assert forall|ii: int, jj: int| 0 <= ii < jj < entries_view(out@).len()
                    implies entries_view(out@)[ii].pos != entries_view(out@)[jj].pos by {
                    if jj == ov.len() {
                        if entries_view(out@)[ii].pos == ne.pos {
                            assert(ov[ii] == entries_view(out@)[ii]);
                            assert(has_pos(ov, ne.pos));
                        }
                    }
                }
                assert forall|p: ChunkPos| #[trigger] has_pos(entries_view(out@), p)
                    implies has_pos(orig, p) && idx_of(orig, p) < i + 1
                    && (next_view(*cfg, camera_x as int, at_pos(orig, p)) matches Some(nv)
                        && at_pos(entries_view(out@), p) == nv) by {
                    lemma_has_pos_push(ov, entry_view(ne), p);
                    if p == ne.pos {
                        lemma_at_pos_unique(entries_view(out@), p, ov.len() as int);
                    } else {
                        assert(has_pos(ov, p));
                        let k = idx_of(ov, p);
                        assert(ov[k] == entries_view(out@)[k]);
                        lemma_at_pos_unique(entries_view(out@), p, k);
                    }
                }
                assert forall|p: ChunkPos| #[trigger] has_pos(orig, p) && idx_of(orig, p) < i + 1
                    && (next_view(*cfg, camera_x as int, at_pos(orig, p)) is Some)
                    implies has_pos(entries_view(out@), p) by {
                    lemma_has_pos_push(ov, entry_view(ne), p);
                    if idx_of(orig, p) == i {
                        assert(orig[i as int].pos == p);
                        assert(at_pos(orig, p) == orig[i as int]);
                    }
                }
            }
        } else {
            proof {
                assert(nxt is None);
                lemma_at_pos_unique(orig, e.pos, i as int);
                assert forall|p: ChunkPos| #[trigger] has_pos(orig, p) && idx_of(orig, p) < i + 1
                    && (next_view(*cfg, camera_x as int, at_pos(orig, p)) is Some)
                    implies has_pos(entries_view(out@), p) by {
                    if idx_of(orig, p) == i {
                        assert(at_pos(orig, p) == orig[i as int]);
                        assert(false);
                    }
                }
            }
        }
        i = i + 1;
    }
    proof {
        assert(orig.skip(i as int) =~= Seq::<ChunkView>::empty());
        assert(i == orig.len());
    }
    m.spawned_chunks = out;
    proof {
        assert forall|p: ChunkPos| #[trigger] has_pos(orig, p)
            implies idx_of(orig, p) < orig.len() by {}
    }
}

/// A chunk coordinate in the spawn window that was absent before the spawn
/// pass exists afterwards as a fresh, active chunk.
pub proof fn lemma_spawn_window(cfg: WorldConfig, obs: ObserverPos, a: Seq<ChunkView>, b: Seq<ChunkView>, p: ChunkPos)
    requires
        spawn_rel(cfg, obs, a, b),
        in_window(cfg, obs, p),
        !has_pos(a, p),
    ensures
        has_pos(b, p),
        at_pos(b, p) == fresh_view(cfg, p),
        at_pos(b, p).state == ChunkState::Active,
{
    assert(has_pos(b, (ChunkPos { x: p.x as i64, y: 0 })));
    assert((ChunkPos { x: p.x as i64, y: 0 }) == p);
    let i = idx_of(b, p);
    assert(0 <= i < b.len() && b[i].pos == p);
    if i < a.len() {
        assert(b.take(a.len() as int)[i] == b[i]);
        assert(a[i].pos == p);
        assert(has_pos(a, p));
    }
    assert(b[i] == fresh_view(cfg, b[i].pos));
}

/// A freshly spawned window chunk that lies within the simulation range is
/// still active after the same tick's activity pass, with its fresh tiles.
pub proof fn lemma_spawn_window_active(cfg: WorldConfig, obs: ObserverPos, a: Seq<ChunkView>, b: Seq<ChunkView>, c: Seq<ChunkView>, p: ChunkPos)
    requires
        cfg.wf(),
        spawn_rel(cfg, obs, a, b),
        activity_rel(cfg, obs.x as int, b, c),
        in_window(cfg, obs, p),
        !has_pos(a, p),
        dist_x(cfg, obs.x as int, p) <= cfg.sim_range,
    ensures
        has_pos(c, p),
        at_pos(c, p) == fresh_view(cfg, p),
        at_pos(c, p).state == ChunkState::Active,
{
    lemma_spawn_window(cfg, obs, a, b, p);
    let e = at_pos(b, p);
    assert(e.pos == p);
    assert(next_view(cfg, obs.x as int, e) == Some(e));
    assert(has_pos(c, p));
}

/// Sleep/wake hysteresis: a dormant chunk within the spawn range but outside
/// the simulation range survives an activity pass untouched, and a later
/// pass with the observer back inside the simulation range wakes it with all
/// its tile data preserved -- the chunk is never destroyed and recreated.
pub proof fn lemma_sleep_wake_hysteresis(cfg: WorldConfig, cam1: int, cam2: int, a: Seq<ChunkView>, b: Seq<ChunkView>, c: Seq<ChunkView>, p: ChunkPos)
    requires
        cfg.wf(),
        activity_rel(cfg, cam1, a, b),
        activity_rel(cfg, cam2, b, c),
        has_pos(a, p),
        at_pos(a, p).state == ChunkState::Dormant,
        cfg.sim_range <= dist_x(cfg, cam1, p) <= cfg.spawn_range,
        dist_x(cfg, cam2, p) < cfg.sim_range,
    ensures
        has_pos(b, p),
        at_pos(b, p).state == ChunkState::Dormant,
        at_pos(b, p).tiles == at_pos(a, p).tiles,
        has_pos(c, p),
        at_pos(c, p).state == ChunkState::Active,
        at_pos(c, p).tiles == at_pos(a, p).tiles,
{
    let e = at_pos(a, p);
    assert(e.pos == p);
    assert(next_view(cfg, cam1, e) == Some(e));
    assert(has_pos(b, p));
    assert(at_pos(b, p) == e);
    assert(next_view(cfg, cam2, e) == Some(ChunkView { pos: p, state: ChunkState::Active, tiles: e.tiles }));
    assert(has_pos(c, p));
}

/// Despawn: a dormant chunk beyond the spawn range is removed from the
/// registry by the activity pass, and resolving any world coordinate it
/// owned afterwards reports the tile as absent.
pub proof fn lemma_despawn(cfg: WorldConfig, cam: int, a: Seq<ChunkView>, b: Seq<ChunkView>, p: ChunkPos, w: WorldPos)
    requires
        cfg.wf(),
        activity_rel(cfg, cam, a, b),
        has_pos(a, p),
        at_pos(a, p).state == ChunkState::Dormant,
        dist_x(cfg, cam, p) > cfg.spawn_range,
        p == (ChunkPos { x: wtc_cx(cfg, w.x as int) as i64, y: wtc_cy(cfg, w.y as int) as i64 }),
    ensures
        !has_pos(b, p),
        resolve_view(cfg, b, w) is None,
{
    let e = at_pos(a, p);
    assert(e.pos == p);
    assert(next_view(cfg, cam, e) is None);
    if has_pos(b, p) {
        assert(next_view(cfg, cam, at_pos(a, p)) is Some);
    }
}

/// Idempotent lifecycle: with an unmoved observer whose whole spawn window
/// is within the spawn range, and no active chunk beyond the spawn range,
/// a second lifecycle pass (spawn then activity) reproduces the registry of
/// the first exactly: same membership, same states, same tiles.
pub proof fn lemma_lifecycle_idempotent(cfg: WorldConfig, obs: ObserverPos, a: Seq<ChunkView>, s1: Seq<ChunkView>, b1: Seq<ChunkView>, s2: Seq<ChunkView>, b2: Seq<ChunkView>)
    requires
        cfg.wf(),
        distinct_pos(a),
        spawn_rel(cfg, obs, a, s1),
        activity_rel(cfg, obs.x as int, s1, b1),
        spawn_rel(cfg, obs, b1, s2),
        activity_rel(cfg, obs.x as int, s2, b2),
        forall|p: ChunkPos| in_window(cfg, obs, p) ==> #[trigger] dist_x(cfg, obs.x as int, p) <= cfg.spawn_range,
        forall|p: ChunkPos| #[trigger] has_pos(a, p) && at_pos(a, p).state == ChunkState::Active
            ==> dist_x(cfg, obs.x as int, p) <= cfg.spawn_range,
    ensures
        forall|p: ChunkPos| #[trigger] has_pos(b2, p) <==> #[trigger] has_pos(b1, p),
        forall|p: ChunkPos| #[trigger] has_pos(b1, p) ==> at_pos(b2, p) == at_pos(b1, p),
{
    let cam = obs.x as int;
    // Every entry that survives the first activity pass is a fixed point of
    // the activity step.
    assert forall|p: ChunkPos| #[trigger] has_pos(b1, p)
        implies next_view(cfg, cam, at_pos(b1, p)) == Some(at_pos(b1, p)) by {
        assert(has_pos(s1, p));
        let e = at_pos(s1, p);
        assert(e.pos == p);
        assert(at_pos(b1, p).pos == p);
        let i = idx_of(s1, p);
        let d = dist_x(cfg, cam, p);
        if i < a.len() {
            assert(s1.take(a.len() as int)[i] == s1[i]);
            assert(a[i].pos == p);
            lemma_at_pos_unique(a, p, i);
            assert(e == a[i]);
            if e.state == ChunkState::Active {
                assert(has_pos(a, p) && at_pos(a, p).state == ChunkState::Active);
                assert(d <= cfg.spawn_range);
            }
        } else {
            assert(s1[i] == fresh_view(cfg, s1[i].pos));
            assert(in_window(cfg, obs, p));
            assert(d <= cfg.spawn_range);
        }
        if e.state == ChunkState::Dormant {
            assert(next_view(cfg, cam, e) is Some);
            assert(d <= cfg.spawn_range);
        }
    }
    // The whole spawn window is present after the first pass.
    assert forall|p: ChunkPos| in_window(cfg, obs, p) implies #[trigger] has_pos(b1, p) by {
        assert(has_pos(s1, (ChunkPos { x: p.x as i64, y: 0 })));
        assert((ChunkPos { x: p.x as i64, y: 0 }) == p);
        let e = at_pos(s1, p);
        assert(e.pos == p);
        let d = dist_x(cfg, cam, p);
        assert(d <= cfg.spawn_range);
        assert(next_view(cfg, cam, e) is Some);
    }
    // Therefore the second spawn pass adds nothing.
    assert(s2.len() == b1.len()) by {
        if s2.len() > b1.len() {
            assert(s2[b1.len() as int] == fresh_view(cfg, s2[b1.len() as int].pos));
            assert(in_window(cfg, obs, s2[b1.len() as int].pos));
            assert(!has_pos(b1, s2[b1.len() as int].pos));
        }
    }
    assert(s2 =~= b1) by {
        assert(s2.take(b1.len() as int) =~= s2);
    }
    // And the second activity pass maps every surviving entry to itself.
    assert forall|p: ChunkPos| #[trigger] has_pos(b2, p) implies has_pos(b1, p) by {}
    assert forall|p: ChunkPos| #[trigger] has_pos(b1, p) implies has_pos(b2, p) by {
        assert(next_view(cfg, cam, at_pos(b1, p)) is Some);
    }
    assert forall|p: ChunkPos| #[trigger] has_pos(b1, p)
        implies at_pos(b2, p) == at_pos(b1, p) by {
        assert(next_view(cfg, cam, at_pos(b1, p)) == Some(at_pos(b1, p)));
        assert(has_pos(b2, p));
    }
}

} // verus!
