use vstd::prelude::*;
use crate::chunk::{Chunk, ChunkData};
use crate::world::{ChunkPos, World, block_in, as_key, chunk_of_block};

verus! {

/// `a` comes before `b` in the order of x, then y, then z.
pub open spec fn lex_lt(a: (int, int, int), b: (int, int, int)) -> bool {
    a.0 < b.0 || (a.0 == b.0 && (a.1 < b.1 || (a.1 == b.1 && a.2 < b.2)))
}

/// `(x, y, z)` lies in the box `[min_x, max_x, min_y, max_y, min_z, max_z]`, bounds included.
pub open spec fn in_box(k: (int, int, int), range: [i32; 6]) -> bool {
    range[0] <= k.0 <= range[1] && range[2] <= k.1 <= range[3] && range[4] <= k.2 <= range[5]
}

/// The integer triple of a key.
pub open spec fn key_ints(k: ChunkPos) -> (int, int, int) {
    (k.0 as int, k.1 as int, k.2 as int)
}

/// `keys` holds exactly the keys that satisfy `keep` in the box `range`,
/// each once, in the order of x, then y, then z.
pub open spec fn box_scan(keys: Seq<ChunkPos>, range: [i32; 6], keep: spec_fn(ChunkPos) -> bool) -> bool {
    &&& forall|k: ChunkPos| #[trigger] keys.contains(k) <==> in_box(key_ints(k), range) && keep(k)
    &&& forall|i: int, j: int| 0 <= i < j < keys.len() ==> lex_lt(key_ints(#[trigger] keys[i]), key_ints(#[trigger] keys[j]))
}

/// Walks the box `range` in the order of x, then y, then z, keeping the
/// keys for which `world` says `keep` (every key when `world` is `None`).
fn scan_box(range: [i32; 6], world: Option<&World>) -> (r: Vec<ChunkPos>)
    requires
        world matches Some(w) ==> w.wf(),
    ensures
        box_scan(r@, range, |k: ChunkPos| scan_keep(world, k)),
        world is None ==> r@.len() == range_box_count(range),
{
    let mut r: Vec<ChunkPos> = Vec::new();
    if range[0] > range[1] || range[2] > range[3] || range[4] > range[5] {
        proof {
            assert forall|k: ChunkPos| #[trigger] r@.contains(k) <==> in_box(key_ints(k), range) && scan_keep(world, k) by {}
            let (a, b, c) = (axis_count(range[0], range[1]), axis_count(range[2], range[3]), axis_count(range[4], range[5]));
            assert(a * b * c == 0) by (nonlinear_arith)
                requires
                    a == 0 || b == 0 || c == 0,
            ;
        }
        return r;
    }
    let ghost cy: int = range[3] - range[2] + 1;
    let ghost cz: int = range[5] - range[4] + 1;
    let mut x: i64 = range[0] as i64;
    proof {
        assert((x - range[0]) * cy * cz == 0) by (nonlinear_arith)
            requires
                x == range[0],
        ;
    }
    while x <= range[1] as i64
        invariant
            range[0] <= x <= range[1] + 1,
            range[2] <= range[3] && range[4] <= range[5],
            world matches Some(w) ==> w.wf(),
            forall|k: ChunkPos| #[trigger] r@.contains(k) <==> in_box(key_ints(k), range) && scan_keep(world, k) && k.0 < x,
            forall|i: int, j: int| 0 <= i < j < r@.len() ==> lex_lt(key_ints(#[trigger] r@[i]), key_ints(#[trigger] r@[j])),
            forall|i: int| 0 <= i < r@.len() ==> (#[trigger] r@[i]).0 < x,
            cy == range[3] - range[2] + 1,
            cz == range[5] - range[4] + 1,
            world is None ==> r@.len() == (x - range[0]) * cy * cz,
        decreases range[1] + 1 - x,
    {
        let mut y: i64 = range[2] as i64;
        while y <= range[3] as i64
            invariant
                range[0] <= x <= range[1],
                range[2] <= y <= range[3] + 1,
                range[4] <= range[5],
                world matches Some(w) ==> w.wf(),
                forall|k: ChunkPos| #[trigger] r@.contains(k) <==> in_box(key_ints(k), range) && scan_keep(world, k) && lex_lt(
                    key_ints(k),
                    (x as int, y as int, range[4] as int),
                ),
                forall|i: int, j: int| 0 <= i < j < r@.len() ==> lex_lt(key_ints(#[trigger] r@[i]), key_ints(#[trigger] r@[j])),
                forall|i: int| 0 <= i < r@.len() ==> lex_lt(key_ints(#[trigger] r@[i]), (x as int, y as int, range[4] as int)),
                cy == range[3] - range[2] + 1,
                cz == range[5] - range[4] + 1,
                world is None ==> r@.len() == ((x - range[0]) * cy + (y - range[2])) * cz,
            decreases range[3] + 1 - y,
        {
            let mut z: i64 = range[4] as i64;
            while z <= range[5] as i64
                invariant
                    range[0] <= x <= range[1],
                    range[2] <= y <= range[3],
                    range[4] <= z <= range[5] + 1,
                    world matches Some(w) ==> w.wf(),
                    forall|k: ChunkPos| #[trigger] r@.contains(k) <==> in_box(key_ints(k), range) && scan_keep(world, k) && lex_lt(
                        key_ints(k),
                        (x as int, y as int, z as int),
                    ),
                    forall|i: int, j: int| 0 <= i < j < r@.len() ==> lex_lt(key_ints(#[trigger] r@[i]), key_ints(#[trigger] r@[j])),
                    forall|i: int| 0 <= i < r@.len() ==> lex_lt(key_ints(#[trigger] r@[i]), (x as int, y as int, z as int)),
                    cy == range[3] - range[2] + 1,
                    cz == range[5] - range[4] + 1,
                    world is None ==> r@.len() == ((x - range[0]) * cy + (y - range[2])) * cz + (z - range[4]),
                decreases range[5] + 1 - z,
            {
                let key: ChunkPos = (x as i32, y as i32, z as i32);
                let keep = match world {
                    Some(w) => w.is_block_solid(key.0, key.1, key.2),
                    None => true,
                };
                let ghost r0 = r@;
                if keep {
                    r.push(key);
                }
                proof {
                    assert forall|k: ChunkPos| #[trigger] r@.contains(k) <==> in_box(key_ints(k), range) && scan_keep(world, k)
                        && lex_lt(key_ints(k), (x as int, y as int, z + 1)) by {
                        if r@.contains(k) && k != key {
                            let a = choose|a: int| 0 <= a < r@.len() && r@[a] == k;
                            assert(r0[a] == k);
                            assert(r0.contains(k));
                        }
                        if in_box(key_ints(k), range) && scan_keep(world, k) && lex_lt(key_ints(k), (x as int, y as int, z + 1)) && k
                            != key {
                            assert(r0.contains(k));
                            let a = choose|a: int| 0 <= a < r0.len() && r0[a] == k;
                            assert(r@[a] == k);
                        }
                        if k == key && keep {
                            assert(r@[r@.len() - 1] == k);
                        }
                    }
                }
                z = z + 1;
            }
            proof {
                let a = (x - range[0]) * cy + (y - range[2]);
                assert(a * cz + cz == (a + 1) * cz) by (nonlinear_arith);
            }
            y = y + 1;
        }
        proof {
            let a = (x - range[0]) * cy;
            assert((a + cy) * cz == (x + 1 - range[0]) * cy * cz) by (nonlinear_arith)
                requires
                    a == (x - range[0]) * cy,
            ;
        }
        x = x + 1;
    }
    r
}

/// Whether the scan of `world` keeps `k`: a block a body cannot enter.
pub open spec fn scan_keep(world: Option<&World>, k: ChunkPos) -> bool {
    match world {
        Some(w) => !w.table().dom().contains(as_key(chunk_of_block(k.0 as int, k.1 as int, k.2 as int)))
            || block_in(w.table(), k.0 as int, k.1 as int, k.2 as int).spec_is_solid(),
        None => true,
    }
}

/// Every chunk key of the box `[min_cx, max_cx, min_cy, max_cy, min_cz, max_cz]`,
/// in the order of x, then y, then z.
pub fn chunk_keys_in_range(range: [i32; 6]) -> (r: Vec<ChunkPos>)
    ensures
        r@.len() == range_box_count(range),
        forall|k: ChunkPos| #[trigger] r@.contains(k) <==> in_box(key_ints(k), range),
        forall|i: int, j: int| 0 <= i < j < r@.len() ==> lex_lt(key_ints(#[trigger] r@[i]), key_ints(#[trigger] r@[j])),
{
    let r = scan_box(range, None);
    proof {
        assert forall|k: ChunkPos| #[trigger] r@.contains(k) <==> in_box(key_ints(k), range) by {
            assert(scan_keep(None, k));
        }
    }
    r
}

/// The blocks a body in the box of blocks from `min` to `max` (bounds
/// included) collides with: solid blocks and blocks of chunks not loaded,
/// in the order of x, then y, then z. Nothing collides while no chunk is
/// loaded, nor in an empty box.
pub fn colliding_blocks(world: &World, min: (i32, i32, i32), max: (i32, i32, i32)) -> (r: Vec<(i32, i32, i32)>)
    requires
        world.wf(),
    ensures
        world.chunks@.len() == 0 ==> r@.len() == 0,
        world.chunks@.len() > 0 ==> box_scan(r@, [min.0, max.0, min.1, max.1, min.2, max.2], |k: ChunkPos| scan_keep(Some(world), k)),
{
    if world.is_empty() {
        return Vec::new();
    }
    if min.0 > max.0 || min.1 > max.1 || min.2 > max.2 {
        let r: Vec<(i32, i32, i32)> = Vec::new();
        proof {
            assert forall|k: ChunkPos| #[trigger] r@.contains(k) <==> in_box(key_ints(k), [min.0, max.0, min.1, max.1, min.2, max.2])
                && scan_keep(Some(world), k) by {}
        }
        return r;
    }
    scan_box([min.0, max.0, min.1, max.1, min.2, max.2], Some(world))
}

/// The chunks of `table` under the keys of `keys` that are loaded, in order.
pub open spec fn loaded_chunks(keys: Seq<ChunkPos>, table: Map<ChunkPos, ChunkData>) -> Seq<Chunk>
    decreases keys.len(),
{
    if keys.len() == 0 {
        Seq::empty()
    } else if table.dom().contains(keys.last()) {
        loaded_chunks(keys.drop_last(), table).push(table[keys.last()].chunk)
    } else {
        loaded_chunks(keys.drop_last(), table)
    }
}

/// `keys` holds every key of the box `range`, once, in the order of x, then y, then z.
pub open spec fn box_keys(keys: Seq<ChunkPos>, range: [i32; 6]) -> bool {
    box_scan(keys, range, |k: ChunkPos| true)
}

/// The chunks referred to by `refs` are `chunks`.
pub open spec fn same_chunks(refs: Seq<&Chunk>, chunks: Seq<Chunk>) -> bool {
    refs.len() == chunks.len() && forall|i: int| 0 <= i < refs.len() ==> *#[trigger] refs[i] == chunks[i]
}

impl World {
    /// The loaded chunks of the box of chunk keys `range` (see
    /// `chunk_keys_in_range`), in the order of x, then y, then z.
    pub fn get_player_rendered_chunks(&self, range: [i32; 6]) -> (r: Vec<&Chunk>)
        requires
            self.wf(),
        ensures
            exists|keys: Seq<ChunkPos>| #[trigger] box_keys(keys, range) && same_chunks(r@, loaded_chunks(keys, self.table())),
    {
        let keys = chunk_keys_in_range(range);
        let mut r: Vec<&Chunk> = Vec::new();
        let mut i: usize = 0;
        proof {
            assert(keys@.take(0) =~= Seq::<ChunkPos>::empty());
        }
        while i < keys.len()
            invariant
                i <= keys@.len(),
                self.wf(),
                same_chunks(r@, loaded_chunks(keys@.take(i as int), self.table())),
            decreases keys@.len() - i,
        {
            let key = keys[i];
            proof {
                assert(keys@.take(i + 1).drop_last() =~= keys@.take(i as int));
                assert(keys@.take(i + 1).last() == key);
            }
            match self.get_chunk(key.0, key.1, key.2) {
                Some(c) => {
                    r.push(c);
                },
                None => {},
            }
            i = i + 1;
        }
        proof {
            assert(keys@.take(keys@.len() as int) =~= keys@);
            assert(box_keys(keys@, range));
        }
        r
    }
}

/// The bytes of `name` folded together with exclusive or, each as a `u64`.
pub open spec fn xor_fold(name: Seq<u8>) -> u64
    decreases name.len(),
{
    if name.len() == 0 {
        0
    } else {
        xor_fold(name.drop_last()) ^ (name.last() as u64)
    }
}

/// The player id derived from the player's name: its bytes folded together
/// with exclusive or.
pub fn player_id_from_name(name: &[u8]) -> (r: u64)
    ensures
        r == xor_fold(name@),
{
    let mut acc: u64 = 0;
    let mut i: usize = 0;
    proof {
        assert(name@.take(0) =~= Seq::<u8>::empty());
    }
    while i < name.len()
        invariant
            i <= name@.len(),
            acc == xor_fold(name@.take(i as int)),
        decreases name@.len() - i,
    {
        proof {
            assert(name@.take(i + 1).drop_last() =~= name@.take(i as int));
        }
        acc = acc ^ (name[i] as u64);
        i = i + 1;
    }
    proof {
        assert(name@.take(name@.len() as int) =~= name@);
    }
    acc
}

/// How the local player moves: walking with collisions, or flying through
/// blocks as a spectator.
#[derive(Clone, Copy, Debug, PartialEq, Eq, Structural)]
pub enum PlayerGameMode {
    Spectator,
    Survival,
}

/// The game mode a switch leads to from `m`.
pub open spec fn next_game_mode(m: PlayerGameMode) -> PlayerGameMode {
    match m {
        PlayerGameMode::Spectator => PlayerGameMode::Survival,
        PlayerGameMode::Survival => PlayerGameMode::Spectator,
    }
}

impl PlayerGameMode {
    /// The other game mode: a spectator starts walking, a walker starts flying.
    pub fn switched(self) -> (r: PlayerGameMode)
        ensures
            r == next_game_mode(self),
            r != self,
    {
        match self {
            PlayerGameMode::Spectator => PlayerGameMode::Survival,
            PlayerGameMode::Survival => PlayerGameMode::Spectator,
        }
    }
}

/// Switching the game mode twice gives back the mode one started from.
pub proof fn lemma_switch_twice(m: PlayerGameMode)
    ensures
        next_game_mode(next_game_mode(m)) == m,
        next_game_mode(m) != m,
{
}

/// The number of chunk coordinates from `lo` to `hi`, both included.
pub open spec fn axis_count(lo: i32, hi: i32) -> int {
    if lo <= hi { hi - lo + 1 } else { 0 }
}

/// The number of chunks of the box `range`, bounds included on each axis.
pub open spec fn range_box_count(range: [i32; 6]) -> int {
    axis_count(range[0], range[1]) * axis_count(range[2], range[3]) * axis_count(range[4], range[5])
}

/// The number of chunks on one axis of a box, bounds included.
fn axis_count_exec(lo: i32, hi: i32) -> (c: u64)
    ensures
        c == axis_count(lo, hi),
        c <= 0x1_0000_0000,
{
    if lo <= hi {
        (hi as i64 - lo as i64 + 1) as u64
    } else {
        0
    }
}

/// The total number of chunks of the box `range`, bounds included on each
/// axis: as many as `chunk_keys_in_range` lists.
pub fn range_chunk_count(range: [i32; 6]) -> (n: u32)
    requires
        range_box_count(range) <= u32::MAX,
    ensures
        n == range_box_count(range),
{
    let cx = axis_count_exec(range[0], range[1]);
    let cy = axis_count_exec(range[2], range[3]);
    let cz = axis_count_exec(range[4], range[5]);
    if cx == 0 || cy == 0 || cz == 0 {
        proof {
            assert(cx * cy * cz == 0) by (nonlinear_arith)
                requires
                    cx == 0 || cy == 0 || cz == 0,
            ;
        }
        return 0;
    }
    assert(cx * cy <= cx * cy * cz && cx * cy * cz <= u32::MAX) by (nonlinear_arith)
        requires
            cz >= 1,
            cx >= 1,
            cy >= 1,
            cx * cy * cz == range_box_count(range),
            range_box_count(range) <= u32::MAX,
    ;
    let cxy: u64 = cx * cy;
    (cxy * cz) as u32
}

/// A message of the player to the server, other than its position.
#[derive(Clone, Copy, Debug, PartialEq, Eq, Structural)]
pub enum ClientPacket {
    /// Asks the server to answer, stamped with the time it was sent.
    Ping { timestamp: u64 },
    /// Answers a ping of the server, with the stamp it carried.
    Pong { timestamp: u64 },
    /// Tells that the player now moves in `gamemode`.
    GamemodeChange { player_id: u64, gamemode: PlayerGameMode },
}

/// The player's end of the game protocol: the id the server gave the player.
pub struct GameProtocol {
    pub player_id: u64,
}

impl GameProtocol {
    pub fn new(player_id: u64) -> (p: GameProtocol)
        ensures
            p.player_id == player_id,
    {
        GameProtocol { player_id }
    }

    /// The id the server gave the player.
    pub fn player_id(&self) -> (r: u64)
        ensures
            r == self.player_id,
    {
        self.player_id
    }

    /// A ping stamped with `timestamp`.
    pub fn create_ping(&self, timestamp: u64) -> (p: ClientPacket)
        ensures
            p == (ClientPacket::Ping { timestamp }),
    {
        ClientPacket::Ping { timestamp }
    }

    /// The answer to a ping stamped with `timestamp`.
    pub fn create_pong(&self, timestamp: u64) -> (p: ClientPacket)
        ensures
            p == (ClientPacket::Pong { timestamp }),
    {
        ClientPacket::Pong { timestamp }
    }

    /// The notice that this player now moves in `gamemode`.
    pub fn create_gamemode_change(&self, gamemode: PlayerGameMode) -> (p: ClientPacket)
        ensures
            p == (ClientPacket::GamemodeChange { player_id: self.player_id, gamemode }),
    {
        ClientPacket::GamemodeChange { player_id: self.player_id, gamemode }
    }
}

} // verus!
