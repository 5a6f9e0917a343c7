use vstd::prelude::*;

use crate::blocks::block::{block_at_spec, neighbour_chunks, Block};
use crate::blocks::block_type::BlockType;
use crate::chunk::{
    block_at_relative, column_of, deliver, sat, with_block, without_block, Chunk,
};
use crate::utils::{
    chunk_of, keys_view, relative_of, BlockPos, ChunkFromPosition, RelativeFromAbsolute,
};

verus! {

/// Seed of every random generator of the world.
pub const RNG_SEED: u64 = 0;
/// Width and depth of a chunk, in blocks.
pub const CHUNK_SIZE: u32 = 16;
pub const CHUNK_HEIGHT: u8 = 255;
/// Width and height of the noise map that drives terrain height.
pub const NOISE_SIZE: u32 = 1024;
pub const NOISE_CHUNK_PER_ROW: u32 = 64;
pub const MAX_TREES_PER_CHUNK: u32 = 3;
/// Number of chunks along one side of the loaded square.
pub const CHUNKS_PER_ROW: u32 = 20;
pub const CHUNKS_REGION: u32 = 400;
/// Every column is filled with water up to this height.
pub const WATER_HEIGHT_LEVEL: u8 = 5;
/// Lower bound of the loaded square, relative to the player's chunk.
pub const LB: i32 = -10;
/// Upper bound of the loaded square, relative to the player's chunk.
pub const UB: i32 = 9;

/// The loaded chunks, each under its own `(x, y)` key, and the terrain height
/// of every cell of the noise map.
pub struct World {
    pub chunks: Vec<Chunk>,
    pub seed: u32,
    pub heights: Vec<u32>,
}

pub open spec fn key_of(c: Chunk) -> (int, int) {
    (c.x as int, c.y as int)
}

/// No two chunks share a key.
pub open spec fn keys_distinct(chunks: Seq<Chunk>) -> bool {
    forall|i: int, j: int| 0 <= i < chunks.len() && 0 <= j < chunks.len() && i != j ==> key_of(#[trigger] chunks[i]) != key_of(#[trigger] chunks[j])
}

pub open spec fn has_key(chunks: Seq<Chunk>, k: (int, int)) -> bool {
    exists|i: int| 0 <= i < chunks.len() && key_of(#[trigger] chunks[i]) == k
}

pub open spec fn index_of_key(chunks: Seq<Chunk>, k: (int, int)) -> int {
    choose|i: int| 0 <= i < chunks.len() && key_of(#[trigger] chunks[i]) == k
}

/// The loaded chunks as a map from key to chunk.
pub open spec fn chunk_map(chunks: Seq<Chunk>) -> Map<(int, int), Chunk> {
    Map::new(|k: (int, int)| has_key(chunks, k), |k: (int, int)| chunks[index_of_key(chunks, k)])
}

/// The position inside its chunk of an absolute position, as a grid point.
pub open spec fn relative_pos(p: BlockPos) -> BlockPos {
    BlockPos { x: relative_of(p).0 as i32, y: relative_of(p).1 as i32, z: relative_of(p).2 as i32 }
}

/// The block found at an absolute position of the world, if its chunk is loaded.
pub open spec fn block_at_absolute(m: Map<(int, int), Chunk>, p: BlockPos) -> Option<Block> {
    if m.contains_key(chunk_of(p)) {
        block_at_relative(m[chunk_of(p)].columns(), relative_pos(p))
    } else {
        None
    }
}

/// The chunks to draw again after the block changed: its own, then its
/// neighbours across the faces it has on the chunk border.
pub open spec fn rerender_keys(b: Block) -> Seq<(int, int)> {
    seq![chunk_of(b.absolute_position)] + neighbour_chunks(b)
}

/// The four horizontal neighbours of an absolute position.
pub open spec fn side_positions(p: BlockPos) -> Seq<BlockPos> {
    seq![
        BlockPos { x: (p.x + 1) as i32, ..p },
        BlockPos { x: (p.x - 1) as i32, ..p },
        BlockPos { z: (p.z + 1) as i32, ..p },
        BlockPos { z: (p.z - 1) as i32, ..p },
    ]
}

/// The positions looked at around the player: a cube of 11 x 11 x 11 blocks,
/// x offsets outermost, then z, then y.
pub open spec fn nearby_position(eye: BlockPos, n: int) -> BlockPos {
    BlockPos {
        x: (eye.x + n / 121 - 5) as i32,
        y: (eye.y + n % 11 - 5) as i32,
        z: (eye.z + (n / 11) % 11 - 5) as i32,
    }
}

/// The blocks found at the first `n` positions around the player, in order.
pub open spec fn nearby_found(m: Map<(int, int), Chunk>, eye: BlockPos, n: int) -> Seq<Block>
    decreases n,
{
    if n <= 0 {
        seq![]
    } else {
        let rest = nearby_found(m, eye, n - 1);
        match block_at_absolute(m, nearby_position(eye, n - 1)) {
            Some(b) => rest.push(b),
            None => rest,
        }
    }
}

/// A world coordinate that stays in range after moving a few blocks.
pub open spec fn coordinate_room(v: int, r: int) -> bool {
    i32::MIN + r <= v <= i32::MAX - r
}

impl World {
    pub open spec fn wf(&self) -> bool {
        &&& keys_distinct(self.chunks@)
        &&& forall|i: int| 0 <= i < self.chunks@.len() ==> (#[trigger] self.chunks@[i]).wf()
    }

    pub open spec fn map(&self) -> Map<(int, int), Chunk> {
        chunk_map(self.chunks@)
    }

    /// An empty world over the given terrain heights.
    pub fn new(seed: u32, heights: Vec<u32>) -> (r: World)
        ensures
            r.wf(),
            r.chunks@ == Seq::<Chunk>::empty(),
            r.heights@ == heights@,
            r.seed == seed,
    {
        World { chunks: Vec::new(), seed, heights }
    }

    /// Index of the chunk with the given key, if it is loaded.
    pub fn find_chunk(&self, key: (i32, i32)) -> (r: Option<usize>)
        ensures
            match r {
                Some(i) => i < self.chunks@.len() && key_of(self.chunks@[i as int]) == (key.0 as int, key.1 as int),
                None => !has_key(self.chunks@, (key.0 as int, key.1 as int)),
            },
    {
        let mut i: usize = 0;
        while i < self.chunks.len()
            invariant
                i <= self.chunks@.len(),
                forall|j: int| 0 <= j < i ==> key_of(#[trigger] self.chunks@[j]) != (key.0 as int, key.1 as int),
            decreases self.chunks@.len() - i,
        {
            if self.chunks[i].x == key.0 && self.chunks[i].y == key.1 {
                return Some(i);
            }
            i += 1;
        }
        None
    }

    /// Stores a chunk under its key, replacing the chunk loaded there before.
    pub fn insert_chunk(&mut self, chunk: Chunk)
        requires
            old(self).wf(),
            chunk.wf(),
        ensures
            final(self).wf(),
            final(self).map() == old(self).map().insert(key_of(chunk), chunk),
            final(self).heights == old(self).heights,
            final(self).seed == old(self).seed,
    {
        let ghost old_chunks = self.chunks@;
        match self.find_chunk((chunk.x, chunk.y)) {
            Some(i) => {
                proof { lemma_update_at(old_chunks, i as int, chunk); }
                self.chunks.set(i, chunk);
            },
            None => {
                proof { lemma_push_new(old_chunks, chunk); }
                self.chunks.push(chunk);
            },
        }
    }

    /// Takes the chunks with the given keys out of the world and hands them
    /// back, in the order of the keys.
    pub fn unload_chunks(&mut self, keys: &Vec<(i32, i32)>) -> (r: Vec<Chunk>)
        requires
            old(self).wf(),
            forall|i: int| 0 <= i < keys@.len() ==> old(self).map().contains_key(#[trigger] keys_view(keys@)[i]),
            forall|i: int, j: int| 0 <= i < j < keys@.len() ==> keys@[i] != keys@[j],
        ensures
            final(self).wf(),
            final(self).map() == old(self).map().remove_keys(keys_view(keys@).to_set()),
            r@.len() == keys@.len(),
            forall|i: int| 0 <= i < keys@.len() ==> #[trigger] r@[i] == old(self).map()[keys_view(keys@)[i]],
            final(self).heights == old(self).heights,
            final(self).seed == old(self).seed,
    {
        let mut removed: Vec<Chunk> = Vec::new();
        let mut n: usize = 0;
        let ghost m0 = self.map();
        while n < keys.len()
            invariant
                n <= keys@.len(),
                self.wf(),
                self.heights == old(self).heights,
                self.seed == old(self).seed,
                m0 == old(self).map(),
                forall|i: int| 0 <= i < keys@.len() ==> m0.contains_key(#[trigger] keys_view(keys@)[i]),
                forall|i: int, j: int| 0 <= i < j < keys@.len() ==> keys@[i] != keys@[j],
                self.map() == m0.remove_keys(keys_view(keys@.take(n as int)).to_set()),
                removed@.len() == n,
                forall|i: int| 0 <= i < n ==> #[trigger] removed@[i] == m0[keys_view(keys@)[i]],
            decreases keys@.len() - n,
        {
            let key = keys[n];
            let ghost kv = (key.0 as int, key.1 as int);
            assert(keys_view(keys@)[n as int] == kv);
            assert(!keys_view(keys@.take(n as int)).to_set().contains(kv)) by {
                if keys_view(keys@.take(n as int)).to_set().contains(kv) {
                    let j = choose|j: int| 0 <= j < n && keys_view(keys@.take(n as int))[j] == kv;
                    assert(keys@[j] == keys@[n as int]);
                }
            }
            assert(self.map().contains_key(kv));
            let ghost before = self.chunks@;
            match self.find_chunk(key) {
                Some(i) => {
                    proof { lemma_map_at(before, i as int); lemma_remove_at(before, i as int); }
                    let c = self.chunks.remove(i);
                    removed.push(c);
                },
                None => {
                    proof { lemma_has_key_map(before, kv); }
                },
            }
            assert(keys_view(keys@.take(n + 1)).to_set() =~= keys_view(keys@.take(n as int)).to_set().insert(kv)) by {
                assert(keys_view(keys@.take(n + 1)) =~= keys_view(keys@.take(n as int)).push(kv));
                keys_view(keys@.take(n as int)).lemma_push_to_set_commute(kv);
            }
            assert(self.map() =~= m0.remove_keys(keys_view(keys@.take(n + 1)).to_set()));
            n += 1;
        }
        assert(keys@.take(keys@.len() as int) =~= keys@);
        removed
    }

    /// The block at an absolute position, if its chunk is loaded.
    pub fn get_blocks_absolute(&self, position: &BlockPos) -> (r: Option<Block>)
        requires
            self.wf(),
        ensures
            r == block_at_absolute(self.map(), *position),
    {
        let key = position.get_chunk_from_position_absolute();
        match self.find_chunk(key) {
            Some(i) => {
                proof { lemma_map_at(self.chunks@, i as int); }
                let relative = position.relative_from_absolute();
                self.chunks[i].get_block_at_relative(&relative)
            },
            None => {
                proof { lemma_has_key_map(self.chunks@, chunk_of(*position)); }
                None
            },
        }
    }

    /// The blocks in the 11 x 11 x 11 cube centred on the player's block.
    pub fn get_blocks_nearby(&self, eye: &BlockPos) -> (r: Vec<Block>)
        requires
            self.wf(),
            coordinate_room(eye.x as int, 5),
            coordinate_room(eye.y as int, 5),
            coordinate_room(eye.z as int, 5),
        ensures
            r@ == nearby_found(self.map(), *eye, 1331),
    {
        let mut nearby_blocks: Vec<Block> = Vec::new();
        let mut n: u32 = 0;
        while n < 1331
            invariant
                n <= 1331,
                self.wf(),
                coordinate_room(eye.x as int, 5),
                coordinate_room(eye.y as int, 5),
                coordinate_room(eye.z as int, 5),
                nearby_blocks@ == nearby_found(self.map(), *eye, n as int),
            decreases 1331 - n,
        {
            let i: i32 = (n / 121) as i32 - 5;
            let h: i32 = (n % 11) as i32 - 5;
            let j: i32 = ((n / 11) % 11) as i32 - 5;
            let position = BlockPos { x: eye.x + i, y: eye.y + h, z: eye.z + j };
            assert(position == nearby_position(*eye, n as int));
            if let Some(block) = self.get_blocks_absolute(&position) {
                nearby_blocks.push(block);
            }
            n += 1;
        }
        nearby_blocks
    }

    /// Writes a block into its loaded chunk, marking that chunk as modified, and
    /// gives the keys of the chunks to draw again.
    pub fn place_block(&mut self, block: Block) -> (r: Vec<(i32, i32)>)
        requires
            old(self).wf(),
            old(self).map().contains_key(chunk_of(block.absolute_position)),
            column_of(block.position) < 256,
        ensures
            final(self).wf(),
            final(self).map() == old(self).map().insert(
                chunk_of(block.absolute_position),
                final(self).map()[chunk_of(block.absolute_position)],
            ),
            edited_by_add(
                old(self).map()[chunk_of(block.absolute_position)],
                final(self).map()[chunk_of(block.absolute_position)],
                block,
                true,
            ),
            keys_view(r@) == rerender_keys(block),
            final(self).heights == old(self).heights,
            final(self).seed == old(self).seed,
    {
        let key = block.get_chunk_coords();
        let mut chunks_to_rerender: Vec<(i32, i32)> = Vec::new();
        chunks_to_rerender.push(key);
        let mut neighbours = block.get_neighbour_chunks_coords();
        chunks_to_rerender.append(&mut neighbours);
        assert(keys_view(chunks_to_rerender@) =~= rerender_keys(block));
        let ghost before = self.chunks@;
        proof { lemma_has_key_map(before, chunk_of(block.absolute_position)); }
        let i = self.find_chunk(key).unwrap();
        proof { lemma_map_at(before, i as int); }
        let mut chunk = self.chunks.remove(i);
        proof { lemma_remove_at(before, i as int); }
        chunk.add_block(block, true);
        proof {
            lemma_push_new(self.chunks@, chunk);
        }
        self.chunks.push(chunk);
        assert(self.map() =~= chunk_map(before).insert(chunk_of(block.absolute_position), chunk));
        chunks_to_rerender
    }

    /// Removes a block from its loaded chunk. Where one of its four horizontal
    /// neighbours is water, water flows into the emptied cell. Gives the keys of
    /// the chunks to draw again.
    pub fn remove_block(&mut self, block: Block) -> (r: Vec<(i32, i32)>)
        requires
            old(self).wf(),
            old(self).map().contains_key(chunk_of(block.absolute_position)),
            column_of(block.position) < 256,
            sat(block.position.y as int) < old(self).map()[chunk_of(block.absolute_position)].columns()[column_of(block.position)].len(),
            coordinate_room(block.absolute_position.x as int, 1),
            coordinate_room(block.absolute_position.z as int, 1),
            forall|k: int| 0 <= k < 4 ==> old(self).map().contains_key(chunk_of(#[trigger] side_positions(block.absolute_position)[k])),
        ensures
            final(self).wf(),
            final(self).map().dom() == old(self).map().dom(),
            forall|k: (int, int)| k != chunk_of(block.absolute_position) && #[trigger] old(self).map().contains_key(k) ==> final(self).map()[k] == old(self).map()[k],
            removed_from(
                old(self).map(),
                final(self).map()[chunk_of(block.absolute_position)],
                block,
            ),
            keys_view(r@) == rerender_keys(block),
            final(self).heights == old(self).heights,
            final(self).seed == old(self).seed,
    {
        let key = block.get_chunk_coords();
        let ghost k0 = chunk_of(block.absolute_position);
        let ghost m0 = self.map();
        let ghost before = self.chunks@;
        proof { lemma_has_key_map(before, k0); }
        let i = self.find_chunk(key).unwrap();
        proof { lemma_map_at(before, i as int); }
        let mut chunk = self.chunks.remove(i);
        proof { lemma_remove_at(before, i as int); }
        chunk.remove_block(&block.position);
        proof { lemma_push_new(self.chunks@, chunk); }
        self.chunks.push(chunk);
        let ghost m1 = self.map();
        assert(m1 =~= m0.insert(k0, chunk));
        let ghost cols1 = without_block(m0[k0].columns(), block.position);
        assert(m1[k0].columns() == cols1);
        let sides = [
            BlockPos { x: block.absolute_position.x + 1, ..block.absolute_position },
            BlockPos { x: block.absolute_position.x - 1, ..block.absolute_position },
            BlockPos { z: block.absolute_position.z + 1, ..block.absolute_position },
            BlockPos { z: block.absolute_position.z - 1, ..block.absolute_position },
        ];
        assert(sides@ == side_positions(block.absolute_position));
        let mut has_adjacent_water = false;
        let mut n: usize = 0;
        while n < 4
            invariant
                n <= 4,
                self.wf(),
                self.map() == m1,
                m1 == m0.insert(k0, m1[k0]),
                m0.contains_key(k0),
                k0 == chunk_of(block.absolute_position),
                m1[k0].columns() == without_block(m0[k0].columns(), block.position),
                sides@ == side_positions(block.absolute_position),
                has_adjacent_water == exists|k: int| 0 <= k < n && #[trigger] water_after_removal(m0, block, side_positions(block.absolute_position)[k]),
            decreases 4 - n,
        {
            let found = self.get_blocks_absolute(&sides[n]);
            proof {
                let q = side_positions(block.absolute_position)[n as int];
                assert(block_at_absolute(m1, q) == water_lookup(m0, block, q));
            }
            let ghost was = has_adjacent_water;
            match found {
                Some(b) => {
                    if b.block_type == BlockType::Water {
                        has_adjacent_water = true;
                    }
                },
                None => {},
            }
            proof {
                let q = side_positions(block.absolute_position)[n as int];
                assert(has_adjacent_water == (was || water_after_removal(m0, block, q)));
                if has_adjacent_water && !was {
                    assert(water_after_removal(m0, block, side_positions(block.absolute_position)[n as int]));
                }
                if !has_adjacent_water {
                    assert forall|k: int| 0 <= k < n + 1 implies !#[trigger] water_after_removal(m0, block, side_positions(block.absolute_position)[k]) by {
                        if k == n {
                        } else {
                            assert(0 <= k < n);
                        }
                    }
                }
            }
            n += 1;
        }
        let mut chunks_to_rerender: Vec<(i32, i32)> = Vec::new();
        chunks_to_rerender.push(key);
        let mut neighbours = block.get_neighbour_chunks_coords();
        chunks_to_rerender.append(&mut neighbours);
        assert(keys_view(chunks_to_rerender@) =~= rerender_keys(block));
        if has_adjacent_water {
            let water = Block { block_type: BlockType::Water, ..block };
            let r = self.place_block(water);
            r
        } else {
            chunks_to_rerender
        }
    }


    /// Moves every block that chunks generated for their neighbours into the
    /// chunk that holds it, where that chunk is loaded; the others are dropped.
    /// Every chunk's list of such blocks is emptied.
    pub fn handle_outside_blocks(&mut self)
        requires
            old(self).wf(),
            forall|b: Block| #[trigger] all_outside(old(self).chunks@).contains(b) && old(self).map().contains_key(chunk_of(b.absolute_position)) ==> column_of(b.position) < 256,
        ensures
            final(self).wf(),
            final(self).chunks@.len() == old(self).chunks@.len(),
            forall|i: int| 0 <= i < final(self).chunks@.len() ==> delivered(
                old(self).chunks@[i],
                #[trigger] final(self).chunks@[i],
                all_outside(old(self).chunks@),
            ),
            final(self).heights == old(self).heights,
            final(self).seed == old(self).seed,
    {
        let ghost c0 = self.chunks@;
        let mut blocks_to_add: Vec<Block> = Vec::new();
        let mut i: usize = 0;
        while i < self.chunks.len()
            invariant
                i <= self.chunks@.len(),
                self.chunks@.len() == c0.len(),
                blocks_to_add@ == all_outside(c0.take(i as int)),
                forall|j: int| 0 <= j < c0.len() ==> #[trigger] self.chunks@[j] == if j < i {
                    Chunk { outside_blocks: self.chunks@[j].outside_blocks, ..c0[j] }
                } else {
                    c0[j]
                },
                forall|j: int| 0 <= j < i ==> (#[trigger] self.chunks@[j]).outside_blocks@.len() == 0,
                self.heights == old(self).heights,
                self.seed == old(self).seed,
            decreases c0.len() - i,
        {
            let mut c = self.chunks.remove(i);
            let mut outside: Vec<Block> = Vec::new();
            std::mem::swap(&mut outside, &mut c.outside_blocks);
            self.chunks.insert(i, c);
            assert(c0.take(i + 1).drop_last() =~= c0.take(i as int));
            blocks_to_add.append(&mut outside);
            i += 1;
        }
        assert(c0.take(c0.len() as int) =~= c0);
        proof { lemma_same_keys_distinct(c0, self.chunks@); }
        let ghost c1 = self.chunks@;
        let mut n: usize = 0;
        while n < blocks_to_add.len()
            invariant
                n <= blocks_to_add@.len(),
                blocks_to_add@ == all_outside(c0),
                self.chunks@.len() == c0.len(),
                keys_distinct(c0),
                forall|j: int| 0 <= j < c0.len() ==> (#[trigger] c0[j]).wf(),
                forall|b: Block| #[trigger] all_outside(c0).contains(b) && chunk_map(c0).contains_key(chunk_of(b.absolute_position)) ==> column_of(b.position) < 256,
                forall|j: int| 0 <= j < c0.len() ==> {
                    let now = #[trigger] self.chunks@[j];
                    &&& now.columns() == deliver(c0[j].columns(), key_of(c0[j]), blocks_to_add@.take(n as int))
                    &&& now.blocks@.len() == c0[j].blocks@.len()
                    &&& now.outside_blocks@.len() == 0
                    &&& now.x == c0[j].x
                    &&& now.y == c0[j].y
                    &&& now.modified == c0[j].modified
                    &&& now.indices == c0[j].indices
                    &&& now.water_indices == c0[j].water_indices
                    &&& now.visible == c0[j].visible
                },
                self.heights == old(self).heights,
                self.seed == old(self).seed,
            decreases blocks_to_add@.len() - n,
        {
            let block = blocks_to_add[n];
            let key = block.get_chunk_coords();
            proof { lemma_same_keys_distinct(c0, self.chunks@); }
            let ghost before = self.chunks@;
            assert(blocks_to_add@.take(n + 1) =~= blocks_to_add@.take(n as int).push(block));
            assert(blocks_to_add@.take(n + 1).drop_last() =~= blocks_to_add@.take(n as int));
            assert(blocks_to_add@.take(n + 1).last() == block);
            match self.find_chunk(key) {
                Some(j) => {
                    proof {
                        assert(all_outside(c0).contains(block)) by { assert(blocks_to_add@[n as int] == block); }
                        assert(key_of(c0[j as int]) == chunk_of(block.absolute_position));
                        lemma_map_at(c0, j as int);
                    }
                    let mut c = self.chunks.remove(j);
                    c.add_block(block, false);
                    self.chunks.insert(j, c);
                    assert(self.chunks@ =~= before.update(j as int, c));
                    assert forall|k: int| 0 <= k < c0.len() && k != j implies key_of(c0[k]) != chunk_of(block.absolute_position) by {}
                },
                None => {
                    assert forall|k: int| 0 <= k < c0.len() implies key_of(c0[k]) != chunk_of(block.absolute_position) by {
                        assert(key_of(before[k]) == key_of(c0[k]));
                    }
                },
            }
            n += 1;
        }
        assert(blocks_to_add@.take(blocks_to_add@.len() as int) =~= blocks_to_add@);
        proof { lemma_same_keys_distinct(c0, self.chunks@); }
    }

}

/// The blocks that the chunks generated for their neighbours, chunk after chunk.
pub open spec fn all_outside(chunks: Seq<Chunk>) -> Seq<Block>
    decreases chunks.len(),
{
    if chunks.len() == 0 {
        seq![]
    } else {
        all_outside(chunks.drop_last()) + chunks.last().outside_blocks@
    }
}

/// `after` is `before` once the blocks among `blocks` that belong to it were
/// written into it and its own list of outside blocks was emptied.
pub open spec fn delivered(before: Chunk, after: Chunk, blocks: Seq<Block>) -> bool {
    &&& after.columns() == deliver(before.columns(), key_of(before), blocks)
    &&& after.blocks@.len() == before.blocks@.len()
    &&& after.outside_blocks@.len() == 0
    &&& after.x == before.x
    &&& after.y == before.y
    &&& after.modified == before.modified
    &&& after.indices == before.indices
    &&& after.water_indices == before.water_indices
    &&& after.visible == before.visible
}

/// Chunks with the same keys and column counts keep the world well formed.
proof fn lemma_same_keys_distinct(a: Seq<Chunk>, b: Seq<Chunk>)
    requires
        keys_distinct(a),
        a.len() == b.len(),
        forall|j: int| 0 <= j < a.len() ==> key_of(#[trigger] b[j]) == key_of(a[j]),
    ensures
        keys_distinct(b),
{
    assert forall|i: int, j: int| 0 <= i < b.len() && 0 <= j < b.len() && i != j implies key_of(#[trigger] b[i]) != key_of(#[trigger] b[j]) by {
        assert(key_of(b[i]) == key_of(a[i]));
        assert(key_of(b[j]) == key_of(a[j]));
    }
}

/// What `remove_block` finds at a side position: the cell it just emptied
/// reads as empty, every other cell as before.
pub open spec fn water_lookup(m: Map<(int, int), Chunk>, b: Block, q: BlockPos) -> Option<Block> {
    let k0 = chunk_of(b.absolute_position);
    if chunk_of(q) == k0 {
        block_at_relative(without_block(m[k0].columns(), b.position), relative_pos(q))
    } else {
        block_at_absolute(m, q)
    }
}

pub open spec fn water_after_removal(m: Map<(int, int), Chunk>, b: Block, q: BlockPos) -> bool {
    match water_lookup(m, b, q) {
        Some(w) => w.block_type == BlockType::Water,
        None => false,
    }
}

/// Some horizontal neighbour of the removed block holds water.
pub open spec fn water_beside(m: Map<(int, int), Chunk>, b: Block) -> bool {
    exists|k: int| 0 <= k < 4 && #[trigger] water_after_removal(m, b, side_positions(b.absolute_position)[k])
}

/// `after` is the chunk of `b` once `remove_block(b)` ran on the world `m`:
/// the cell is emptied, then refilled with water when water lies beside it.
pub open spec fn removed_from(m: Map<(int, int), Chunk>, after: Chunk, b: Block) -> bool {
    let before = m[chunk_of(b.absolute_position)];
    let emptied = without_block(before.columns(), b.position);
    &&& after.columns() == if water_beside(m, b) {
        with_block(emptied, Block { block_type: BlockType::Water, ..b })
    } else {
        emptied
    }
    &&& after.blocks@.len() == before.blocks@.len()
    &&& after.modified
    &&& after.x == before.x
    &&& after.y == before.y
    &&& after.outside_blocks == before.outside_blocks
    &&& after.indices == before.indices
    &&& after.water_indices == before.water_indices
    &&& after.visible == before.visible
}

/// `after` is `before` once `add_block(b, modify)` has run on it.
pub open spec fn edited_by_add(before: Chunk, after: Chunk, b: Block, modify: bool) -> bool {
    &&& after.columns() == with_block(before.columns(), b)
    &&& after.blocks@.len() == before.blocks@.len()
    &&& after.modified == (before.modified || modify)
    &&& after.x == before.x
    &&& after.y == before.y
    &&& after.outside_blocks == before.outside_blocks
    &&& after.indices == before.indices
    &&& after.water_indices == before.water_indices
    &&& after.visible == before.visible
}

/// `after` is `before` once `remove_block(p)` has run on it.
pub open spec fn edited_by_remove(before: Chunk, after: Chunk, p: BlockPos) -> bool {
    &&& after.columns() == without_block(before.columns(), p)
    &&& after.blocks@.len() == before.blocks@.len()
    &&& after.modified
    &&& after.x == before.x
    &&& after.y == before.y
    &&& after.outside_blocks == before.outside_blocks
    &&& after.indices == before.indices
    &&& after.water_indices == before.water_indices
    &&& after.visible == before.visible
}

pub proof fn lemma_has_key_in_map(chunks: Seq<Chunk>, k: (int, int))
    ensures
        chunk_map(chunks).contains_key(k) == has_key(chunks, k),
{
}

/// The chunk at index `i` is the one the map holds under its key.
pub proof fn lemma_map_at_index(chunks: Seq<Chunk>, i: int)
    requires
        keys_distinct(chunks),
        0 <= i < chunks.len(),
    ensures
        chunk_map(chunks).contains_key(key_of(chunks[i])),
        chunk_map(chunks)[key_of(chunks[i])] == chunks[i],
{
    lemma_map_at(chunks, i);
}

proof fn lemma_has_key_map(chunks: Seq<Chunk>, k: (int, int))
    ensures
        chunk_map(chunks).contains_key(k) == has_key(chunks, k),
{
}

proof fn lemma_map_at(chunks: Seq<Chunk>, i: int)
    requires
        keys_distinct(chunks),
        0 <= i < chunks.len(),
    ensures
        chunk_map(chunks).contains_key(key_of(chunks[i])),
        chunk_map(chunks)[key_of(chunks[i])] == chunks[i],
        index_of_key(chunks, key_of(chunks[i])) == i,
{
    assert(has_key(chunks, key_of(chunks[i])));
}

proof fn lemma_update_at(chunks: Seq<Chunk>, i: int, c: Chunk)
    requires
        keys_distinct(chunks),
        0 <= i < chunks.len(),
        key_of(c) == key_of(chunks[i]),
    ensures
        keys_distinct(chunks.update(i, c)),
        chunk_map(chunks.update(i, c)) == chunk_map(chunks).insert(key_of(c), c),
{
    let s = chunks.update(i, c);
    lemma_map_at(chunks, i);
    assert forall|j: int| 0 <= j < s.len() implies key_of(#[trigger] s[j]) == key_of(chunks[j]) by {}
    assert forall|k: (int, int)| has_key(s, k) == has_key(chunks, k) by {
        if has_key(s, k) {
            let j = choose|j: int| 0 <= j < s.len() && key_of(#[trigger] s[j]) == k;
            assert(key_of(chunks[j]) == k);
        }
        if has_key(chunks, k) {
            let j = choose|j: int| 0 <= j < chunks.len() && key_of(#[trigger] chunks[j]) == k;
            assert(key_of(s[j]) == k);
        }
    }
    assert forall|k: (int, int)| has_key(s, k) implies #[trigger] s[index_of_key(s, k)] == chunk_map(chunks).insert(key_of(c), c)[k] by {
        let j = index_of_key(s, k);
        assert(key_of(s[j]) == k);
        if k == key_of(c) {
            assert(j == i);
        } else {
            assert(j != i);
            assert(key_of(chunks[j]) == k);
            lemma_map_at(chunks, j);
        }
    }
    assert(chunk_map(s) =~= chunk_map(chunks).insert(key_of(c), c));
}

proof fn lemma_push_new(chunks: Seq<Chunk>, c: Chunk)
    requires
        keys_distinct(chunks),
        !has_key(chunks, key_of(c)),
    ensures
        keys_distinct(chunks.push(c)),
        chunk_map(chunks.push(c)) == chunk_map(chunks).insert(key_of(c), c),
{
    let s = chunks.push(c);
    let n = chunks.len() as int;
    assert forall|i: int, j: int| 0 <= i < s.len() && 0 <= j < s.len() && i != j implies key_of(#[trigger] s[i]) != key_of(#[trigger] s[j]) by {
        if i == n {
            assert(key_of(s[j]) == key_of(chunks[j]));
        } else if j == n {
            assert(key_of(s[i]) == key_of(chunks[i]));
        }
    }
    assert forall|k: (int, int)| has_key(s, k) == (has_key(chunks, k) || k == key_of(c)) by {
        if has_key(s, k) {
            let j = choose|j: int| 0 <= j < s.len() && key_of(#[trigger] s[j]) == k;
            if j < n {
                assert(key_of(chunks[j]) == k);
            }
        }
        if has_key(chunks, k) {
            let j = choose|j: int| 0 <= j < chunks.len() && key_of(#[trigger] chunks[j]) == k;
            assert(key_of(s[j]) == k);
        }
        if k == key_of(c) {
            assert(key_of(s[n]) == k);
        }
    }
    assert forall|k: (int, int)| has_key(s, k) implies #[trigger] s[index_of_key(s, k)] == chunk_map(chunks).insert(key_of(c), c)[k] by {
        let j = index_of_key(s, k);
        assert(key_of(s[j]) == k);
        if k == key_of(c) {
            lemma_map_at(s, n);
        } else {
            assert(j != n);
            assert(key_of(chunks[j]) == k);
            lemma_map_at(chunks, j);
        }
    }
    assert(chunk_map(s) =~= chunk_map(chunks).insert(key_of(c), c));
}

proof fn lemma_remove_at(chunks: Seq<Chunk>, i: int)
    requires
        keys_distinct(chunks),
        0 <= i < chunks.len(),
    ensures
        keys_distinct(chunks.remove(i)),
        chunk_map(chunks.remove(i)) == chunk_map(chunks).remove(key_of(chunks[i])),
        !has_key(chunks.remove(i), key_of(chunks[i])),
{
    let s = chunks.remove(i);
    let k0 = key_of(chunks[i]);
    assert forall|j: int| 0 <= j < s.len() implies #[trigger] s[j] == chunks[if j < i { j } else { j + 1 }] by {}
    assert forall|a: int, b: int| 0 <= a < s.len() && 0 <= b < s.len() && a != b implies key_of(#[trigger] s[a]) != key_of(#[trigger] s[b]) by {
        let aa = if a < i { a } else { a + 1 };
        let bb = if b < i { b } else { b + 1 };
        assert(s[a] == chunks[aa]);
        assert(s[b] == chunks[bb]);
    }
    assert forall|k: (int, int)| has_key(s, k) == (has_key(chunks, k) && k != k0) by {
        if has_key(s, k) {
            let j = choose|j: int| 0 <= j < s.len() && key_of(#[trigger] s[j]) == k;
            let jj = if j < i { j } else { j + 1 };
            assert(s[j] == chunks[jj]);
            assert(key_of(chunks[jj]) == k);
        }
        if has_key(chunks, k) && k != k0 {
            let j = choose|j: int| 0 <= j < chunks.len() && key_of(#[trigger] chunks[j]) == k;
            assert(j != i);
            let jj = if j < i { j } else { j - 1 };
            assert(s[jj] == chunks[j]);
        }
    }
    assert forall|k: (int, int)| has_key(s, k) implies #[trigger] s[index_of_key(s, k)] == chunk_map(chunks).remove(k0)[k] by {
        let j = index_of_key(s, k);
        let jj = if j < i { j } else { j + 1 };
        assert(s[j] == chunks[jj]);
        lemma_map_at(chunks, jj);
    }
    assert(chunk_map(s) =~= chunk_map(chunks).remove(k0));
}

/// What moving the player into another chunk changes in the loaded square:
/// the keys of the chunks to generate and of the loaded chunks to drop.
pub struct ChunkUpdate {
    pub new_chunks: Vec<(i32, i32)>,
    pub keys_to_remove: Vec<(i32, i32)>,
}

/// The player moved towards larger x or larger z.
pub open spec fn moved_forward(p: (int, int), c: (int, int)) -> bool {
    c.1 - p.1 > 0 || c.0 - p.0 > 0
}

/// Offset from the player's chunk of the row or column that comes into view.
pub open spec fn new_offset(p: (int, int), c: (int, int)) -> int {
    if moved_forward(p, c) {
        9
    } else {
        -10
    }
}

/// Offset from the old player chunk of the row or column that goes out of view.
pub open spec fn old_offset(p: (int, int), c: (int, int)) -> int {
    if moved_forward(p, c) {
        -10
    } else {
        9
    }
}

/// The chunks generated when the player moves from chunk `p` to chunk `c`:
/// a column of 20 chunks when x changed, then a row of 20 when z changed.
pub open spec fn new_chunk_keys(p: (int, int), c: (int, int)) -> Seq<(int, int)> {
    let column: Seq<(int, int)> = if c.0 != p.0 {
        Seq::new(20, |k: int| (c.0 + new_offset(p, c), c.1 - 10 + k))
    } else {
        seq![]
    };
    let row: Seq<(int, int)> = if c.1 != p.1 {
        Seq::new(20, |k: int| (c.0 - 10 + k, c.1 + new_offset(p, c)))
    } else {
        seq![]
    };
    column + row
}

/// A loaded chunk is dropped when the player moves from `p` to `c`.
pub open spec fn leaves_window(p: (int, int), c: (int, int), k: (int, int)) -> bool {
    (c.1 != p.1 && k.1 == p.1 + old_offset(p, c)) || (c.0 != p.0 && k.0 == p.0 + old_offset(p, c))
}

/// The square of chunks kept loaded around the player's chunk.
pub open spec fn window(c: (int, int)) -> Set<(int, int)> {
    Set::new(|k: (int, int)| c.0 - 10 <= k.0 <= c.0 + 9 && c.1 - 10 <= k.1 <= c.1 + 9)
}

/// The chunks generated when a world starts around chunk `c`: x outermost.
pub open spec fn initial_keys(c: (int, int)) -> Seq<(int, int)> {
    Seq::new(400, |k: int| (c.0 - 10 + k / 20, c.1 - 10 + k % 20))
}

pub open spec fn chunk_keys(chunks: Seq<Chunk>) -> Seq<(int, int)> {
    chunks.map_values(|c: Chunk| key_of(c))
}

pub open spec fn stream_room(c: (i32, i32)) -> bool {
    coordinate_room(c.0 as int, 10) && coordinate_room(c.1 as int, 10)
}

impl World {
    /// What to load and unload when the player moves from chunk `previous`
    /// to chunk `current`.
    pub fn chunk_update(&self, previous: (i32, i32), current: (i32, i32)) -> (r: ChunkUpdate)
        requires
            stream_room(previous),
            stream_room(current),
            coordinate_room(current.0 - previous.0, 0),
            coordinate_room(current.1 - previous.1, 0),
        ensures
            keys_view(r.new_chunks@) == new_chunk_keys(
                (previous.0 as int, previous.1 as int),
                (current.0 as int, current.1 as int),
            ),
            keys_view(r.keys_to_remove@) == chunk_keys(self.chunks@).filter(
                |k: (int, int)| leaves_window(
                    (previous.0 as int, previous.1 as int),
                    (current.0 as int, current.1 as int),
                    k,
                ),
            ),
    {
        let ghost p = (previous.0 as int, previous.1 as int);
        let ghost c = (current.0 as int, current.1 as int);
        let delta = (current.0 - previous.0, current.1 - previous.1);
        let forward = delta.1 > 0 || delta.0 > 0;
        let new_chunks_offset: i32 = if forward { UB } else { LB };
        let old_chunks_offset: i32 = if forward { LB } else { UB };
        let mut new_chunks: Vec<(i32, i32)> = Vec::new();
        let chunk_y_remove = previous.1 + old_chunks_offset;
        let chunk_x_remove = previous.0 + old_chunks_offset;
        if delta.0 != 0 {
            let mut i = LB + current.1;
            while i <= UB + current.1
                invariant
                    LB + current.1 <= i <= UB + current.1 + 1,
                    stream_room(current),
                    p == (previous.0 as int, previous.1 as int),
                    c == (current.0 as int, current.1 as int),
                    keys_view(new_chunks@) =~= Seq::new((i - (LB + current.1)) as nat, |k: int| (c.0 + new_offset(p, c), c.1 - 10 + k)),
                    new_chunks_offset == new_offset(p, c),
                decreases UB + current.1 + 1 - i,
            {
                proof { lemma_keys_view_push(new_chunks@, ((current.0 + new_chunks_offset) as i32, i)); }
                new_chunks.push((current.0 + new_chunks_offset, i));
                i += 1;
            }
        }
        let ghost column_part = keys_view(new_chunks@);
        if delta.1 != 0 {
            let mut i = LB + current.0;
            while i <= UB + current.0
                invariant
                    LB + current.0 <= i <= UB + current.0 + 1,
                    stream_room(current),
                    p == (previous.0 as int, previous.1 as int),
                    c == (current.0 as int, current.1 as int),
                    keys_view(new_chunks@) =~= column_part + Seq::new((i - (LB + current.0)) as nat, |k: int| (c.0 - 10 + k, c.1 + new_offset(p, c))),
                    new_chunks_offset == new_offset(p, c),
                decreases UB + current.0 + 1 - i,
            {
                proof { lemma_keys_view_push(new_chunks@, (i, (current.1 + new_chunks_offset) as i32)); }
                new_chunks.push((i, current.1 + new_chunks_offset));
                i += 1;
            }
        }
        assert(keys_view(new_chunks@) =~= new_chunk_keys(p, c));
        let ghost pred = |k: (int, int)| leaves_window(p, c, k);
        let mut keys_to_remove: Vec<(i32, i32)> = Vec::new();
        let mut n: usize = 0;
        while n < self.chunks.len()
            invariant
                n <= self.chunks@.len(),
                p == (previous.0 as int, previous.1 as int),
                c == (current.0 as int, current.1 as int),
                pred == (|k: (int, int)| leaves_window(p, c, k)),
                chunk_y_remove == p.1 + old_offset(p, c),
                chunk_x_remove == p.0 + old_offset(p, c),
                (delta.0 != 0) == (c.0 != p.0),
                (delta.1 != 0) == (c.1 != p.1),
                keys_view(keys_to_remove@) == chunk_keys(self.chunks@).take(n as int).filter(pred),
            decreases self.chunks@.len() - n,
        {
            let key = (self.chunks[n].x, self.chunks[n].y);
            let ghost kv = (key.0 as int, key.1 as int);
            assert(chunk_keys(self.chunks@).take(n + 1) =~= chunk_keys(self.chunks@).take(n as int).push(kv));
            proof { chunk_keys(self.chunks@).take(n as int).lemma_filter_push(kv, pred); }
            if (delta.1 != 0 && key.1 == chunk_y_remove) || (delta.0 != 0 && key.0 == chunk_x_remove) {
                keys_to_remove.push(key);
                assert(keys_view(keys_to_remove@) =~= keys_view(keys_to_remove@.drop_last()).push(kv));
            }
            n += 1;
        }
        assert(chunk_keys(self.chunks@).take(self.chunks@.len() as int) =~= chunk_keys(self.chunks@));
        ChunkUpdate { new_chunks, keys_to_remove }
    }
}

/// The chunks to generate when the world starts around the player's chunk.
pub fn initial_chunk_positions(current: (i32, i32)) -> (r: Vec<(i32, i32)>)
    requires
        stream_room(current),
    ensures
        keys_view(r@) == initial_keys((current.0 as int, current.1 as int)),
{
    let mut positions: Vec<(i32, i32)> = Vec::new();
    let mut chunk_x = LB + current.0;
    while chunk_x <= UB + current.0
        invariant
            LB + current.0 <= chunk_x <= UB + current.0 + 1,
            stream_room(current),
            keys_view(positions@) =~= initial_keys((current.0 as int, current.1 as int)).take(
                (chunk_x - (LB + current.0)) * 20,
            ),
        decreases UB + current.0 + 1 - chunk_x,
    {
        let mut chunk_y = LB + current.1;
        while chunk_y <= UB + current.1
            invariant
                LB + current.1 <= chunk_y <= UB + current.1 + 1,
                LB + current.0 <= chunk_x <= UB + current.0,
                stream_room(current),
                keys_view(positions@) =~= initial_keys((current.0 as int, current.1 as int)).take(
                    (chunk_x - (LB + current.0)) * 20 + (chunk_y - (LB + current.1)),
                ),
            decreases UB + current.1 + 1 - chunk_y,
        {
            proof {
                let a = chunk_x - (LB + current.0);
                let b = chunk_y - (LB + current.1);
                assert((a * 20 + b) / 20 == a && (a * 20 + b) % 20 == b) by (nonlinear_arith)
                    requires
                        0 <= b < 20,
                        0 <= a,
                ;
            }
            proof {
                lemma_keys_view_push(positions@, (chunk_x, chunk_y));
                let c = (current.0 as int, current.1 as int);
                let t = (chunk_x - (LB + current.0)) * 20 + (chunk_y - (LB + current.1));
                assert(initial_keys(c).take(t + 1) =~= initial_keys(c).take(t).push(initial_keys(c)[t]));
            }
            positions.push((chunk_x, chunk_y));
            chunk_y += 1;
        }
        chunk_x += 1;
    }
    positions
}

proof fn lemma_keys_view_push(s: Seq<(i32, i32)>, x: (i32, i32))
    ensures
        keys_view(s.push(x)) == keys_view(s).push((x.0 as int, x.1 as int)),
{
    assert(keys_view(s.push(x)) =~= keys_view(s).push((x.0 as int, x.1 as int)));
}

/// Streaming keeps the loaded chunks equal to the square around the player:
/// starting from the square around chunk `p`, dropping the chunks that
/// `chunk_update` lists and adding the ones it generates gives the square
/// around chunk `c`, for a step of at most one chunk along each axis that
/// does not move forward along one axis and backward along the other.
pub proof fn lemma_streaming_keeps_window(p: (int, int), c: (int, int))
    requires
        -1 <= c.0 - p.0 <= 1,
        -1 <= c.1 - p.1 <= 1,
        !(c.0 - p.0 == 1 && c.1 - p.1 == -1),
        !(c.0 - p.0 == -1 && c.1 - p.1 == 1),
    ensures
        window(p).filter(|k: (int, int)| !leaves_window(p, c, k)).union(new_chunk_keys(p, c).to_set())
            == window(c),
{
    let kept = window(p).filter(|k: (int, int)| !leaves_window(p, c, k));
    let added = new_chunk_keys(p, c);
    assert forall|k: (int, int)| #[trigger] window(c).contains(k) implies kept.contains(k) || added.to_set().contains(k) by {
        if !kept.contains(k) {
            if c.0 != p.0 && k.0 == c.0 + new_offset(p, c) {
                let j = k.1 - (c.1 - 10);
                assert(added[j] == k);
                assert(added.contains(k));
            } else {
                assert(c.1 != p.1 && k.1 == c.1 + new_offset(p, c));
                let j = k.0 - (c.0 - 10);
                let base: int = if c.0 != p.0 { 20 } else { 0 };
                assert(added[base + j] == k);
                assert(added.contains(k));
            }
        }
    }
    let column_len: int = if c.0 != p.0 { 20 } else { 0 };
    assert(added.len() == column_len + if c.1 != p.1 { 20int } else { 0int });
    assert forall|k: (int, int)| kept.contains(k) || added.to_set().contains(k) implies #[trigger] window(c).contains(k) by {
        if added.to_set().contains(k) {
            let j = choose|j: int| 0 <= j < added.len() && added[j] == k;
            if j < column_len {
                assert(k == (c.0 + new_offset(p, c), c.1 - 10 + j));
            } else {
                assert(k == (c.0 - 10 + (j - column_len), c.1 + new_offset(p, c)));
            }
        } else {
            assert(window(p).contains(k) && !leaves_window(p, c, k));
        }
    }
    assert(kept.union(added.to_set()) =~= window(c));
}

/// The chunks generated at start are the square around the player's chunk,
/// each listed once.
pub proof fn lemma_initial_is_window(c: (int, int))
    ensures
        initial_keys(c).to_set() == window(c),
        initial_keys(c).len() == 400,
        forall|i: int, j: int| 0 <= i < j < 400 ==> initial_keys(c)[i] != initial_keys(c)[j],
{
    assert forall|k: (int, int)| #[trigger] window(c).contains(k) implies initial_keys(c).to_set().contains(k) by {
        let j = (k.0 - (c.0 - 10)) * 20 + (k.1 - (c.1 - 10));
        assert(initial_keys(c)[j] == k);
    }
    assert(initial_keys(c).to_set() =~= window(c));
}

/// The block placed next to `block` across face `face` when the player builds
/// on it: at the neighbouring absolute position, seen from inside the chunk
/// that holds it (a position below the ground is lifted to the ground).
pub open spec fn beside_spec(block: Block, face: crate::blocks::block::FaceDirections, t: BlockType) -> Block {
    let n = crate::blocks::block::normal_of(face);
    let p = BlockPos {
        x: (block.absolute_position.x + n.0) as i32,
        y: (block.absolute_position.y + n.1) as i32,
        z: (block.absolute_position.z + n.2) as i32,
    };
    block_at_spec(relative_pos(p), (chunk_of(p).0 as i32, chunk_of(p).1 as i32), t)
}

/// The block that building on face `face` of `block` places.
pub fn block_beside(block: &Block, face: crate::blocks::block::FaceDirections, block_type: BlockType) -> (r: Block)
    requires
        coordinate_room(block.absolute_position.x as int, 1),
        coordinate_room(block.absolute_position.y as int, 1),
        coordinate_room(block.absolute_position.z as int, 1),
    ensures
        r == beside_spec(*block, face, block_type),
        r.absolute_position.x == block.absolute_position.x + crate::blocks::block::normal_of(face).0,
        r.absolute_position.z == block.absolute_position.z + crate::blocks::block::normal_of(face).2,
        block.absolute_position.y + crate::blocks::block::normal_of(face).1 >= 0
            ==> r.absolute_position.y == block.absolute_position.y + crate::blocks::block::normal_of(face).1,
        r.block_type == block_type,
        !crate::chunk::outside_chunk(r.position),
        r.position.y >= 0,
{
    let n = face.get_normal_vector();
    let a = block.absolute_position;
    let new_block_abs_position = BlockPos { x: a.x + n.x, y: a.y + n.y, z: a.z + n.z };
    let chunk = new_block_abs_position.get_chunk_from_position_absolute();
    let position = new_block_abs_position.relative_from_absolute();
    proof { crate::utils::lemma_chunk_decomposition(new_block_abs_position); }
    proof { lemma_beside_is_neighbour(*block, face, block_type); }
    Block::new(position, chunk, block_type)
}

/// Water on any of the four horizontal sides of a removed block flows into
/// its place: the sides are the blocks one step towards +x, -x, +z and -z at
/// the same height.
pub proof fn lemma_water_flows_from_each_side(m: Map<(int, int), Chunk>, after: Chunk, b: Block, dx: int, dz: int)
    requires
        m.contains_key(chunk_of(b.absolute_position)),
        removed_from(m, after, b),
        b.position == relative_pos(b.absolute_position),
        column_of(b.position) < m[chunk_of(b.absolute_position)].blocks@.len(),
        sat(b.position.y as int) < m[chunk_of(b.absolute_position)].columns()[column_of(b.position)].len(),
        coordinate_room(b.absolute_position.x as int, 1),
        coordinate_room(b.absolute_position.z as int, 1),
        (dx == 1 && dz == 0) || (dx == -1 && dz == 0) || (dx == 0 && dz == 1) || (dx == 0 && dz == -1),
        ({
            let q = BlockPos {
                x: (b.absolute_position.x + dx) as i32,
                y: b.absolute_position.y,
                z: (b.absolute_position.z + dz) as i32,
            };
            match block_at_absolute(m, q) {
                Some(w) => w.block_type == BlockType::Water,
                None => false,
            }
        }),
    ensures
        block_at_absolute(m.insert(chunk_of(b.absolute_position), after), b.absolute_position)
            == Some(Block { block_type: BlockType::Water, ..b }),
{
    let p = b.absolute_position;
    let q = BlockPos { x: (p.x + dx) as i32, y: p.y, z: (p.z + dz) as i32 };
    let k = if dx == 1 { 0int } else if dx == -1 { 1int } else if dz == 1 { 2int } else { 3int };
    assert(side_positions(p)[k] == q);
    let k0 = chunk_of(p);
    crate::utils::lemma_chunk_decomposition(p);
    crate::utils::lemma_chunk_decomposition(q);
    if chunk_of(q) == k0 {
        let rq = relative_pos(q);
        assert(rq.x != b.position.x || rq.z != b.position.z);
        assert(column_of(rq) != column_of(b.position));
        crate::chunk::lemma_read_after_remove(m[k0].columns(), b.position, rq);
    }
    assert(water_lookup(m, b, q) == block_at_absolute(m, q));
    assert(water_after_removal(m, b, side_positions(p)[k]));
    assert(water_beside(m, b));
    lemma_remove_then_find(m, after, b);
}

/// With no water on any of its four horizontal sides, a removed block leaves
/// its place empty.
pub proof fn lemma_no_water_beside_leaves_air(m: Map<(int, int), Chunk>, after: Chunk, b: Block)
    requires
        m.contains_key(chunk_of(b.absolute_position)),
        removed_from(m, after, b),
        b.position == relative_pos(b.absolute_position),
        column_of(b.position) < m[chunk_of(b.absolute_position)].blocks@.len(),
        sat(b.position.y as int) < m[chunk_of(b.absolute_position)].columns()[column_of(b.position)].len(),
        coordinate_room(b.absolute_position.x as int, 1),
        coordinate_room(b.absolute_position.z as int, 1),
        forall|dx: int, dz: int|
            (dx == 1 && dz == 0) || (dx == -1 && dz == 0) || (dx == 0 && dz == 1) || (dx == 0 && dz == -1)
                ==> match #[trigger] block_at_absolute(m, BlockPos {
                    x: (b.absolute_position.x + dx) as i32,
                    y: b.absolute_position.y,
                    z: (b.absolute_position.z + dz) as i32,
                }) {
                    Some(w) => w.block_type != BlockType::Water,
                    None => true,
                },
    ensures
        block_at_absolute(m.insert(chunk_of(b.absolute_position), after), b.absolute_position) is None,
{
    let p = b.absolute_position;
    let k0 = chunk_of(p);
    crate::utils::lemma_chunk_decomposition(p);
    assert forall|k: int| 0 <= k < 4 implies !#[trigger] water_after_removal(m, b, side_positions(p)[k]) by {
        let dx: int = if k == 0 { 1 } else if k == 1 { -1 } else { 0 };
        let dz: int = if k == 2 { 1 } else if k == 3 { -1 } else { 0 };
        let q = BlockPos { x: (p.x + dx) as i32, y: p.y, z: (p.z + dz) as i32 };
        assert(side_positions(p)[k] == q);
        crate::utils::lemma_chunk_decomposition(q);
        if chunk_of(q) == k0 {
            let rq = relative_pos(q);
            assert(column_of(rq) != column_of(b.position));
            crate::chunk::lemma_read_after_remove(m[k0].columns(), b.position, rq);
        }
        assert(water_lookup(m, b, q) == block_at_absolute(m, q));
    }
    lemma_remove_then_find(m, after, b);
}

/// Building on face `face` of a block places the new block one step along the
/// face's normal on every axis (a step below the ground stays on the ground),
/// inside the chunk that holds that place.
pub proof fn lemma_beside_is_neighbour(block: Block, face: crate::blocks::block::FaceDirections, t: BlockType)
    requires
        coordinate_room(block.absolute_position.x as int, 1),
        coordinate_room(block.absolute_position.y as int, 1),
        coordinate_room(block.absolute_position.z as int, 1),
    ensures
        ({
            let n = crate::blocks::block::normal_of(face);
            let r = beside_spec(block, face, t);
            &&& r.absolute_position.x == block.absolute_position.x + n.0
            &&& r.absolute_position.z == block.absolute_position.z + n.2
            &&& block.absolute_position.y + n.1 >= 0 ==> r.absolute_position.y == block.absolute_position.y + n.1
            &&& block.absolute_position.y + n.1 < 0 ==> r.absolute_position.y == 0
            &&& r.block_type == t
            &&& chunk_of(r.absolute_position) == chunk_of(BlockPos {
                x: (block.absolute_position.x + n.0) as i32,
                y: block.absolute_position.y,
                z: (block.absolute_position.z + n.2) as i32,
            })
        }),
{
    let n = crate::blocks::block::normal_of(face);
    let p = BlockPos {
        x: (block.absolute_position.x + n.0) as i32,
        y: (block.absolute_position.y + n.1) as i32,
        z: (block.absolute_position.z + n.2) as i32,
    };
    crate::utils::lemma_chunk_decomposition(p);
}

/// A block placed into the world is found again at its absolute position.
pub proof fn lemma_place_then_find(m: Map<(int, int), Chunk>, after: Chunk, b: Block)
    requires
        m.contains_key(chunk_of(b.absolute_position)),
        edited_by_add(m[chunk_of(b.absolute_position)], after, b, true),
        b.position == relative_pos(b.absolute_position),
        column_of(b.position) < m[chunk_of(b.absolute_position)].blocks@.len(),
    ensures
        block_at_absolute(m.insert(chunk_of(b.absolute_position), after), b.absolute_position) == Some(b),
{
    let k = chunk_of(b.absolute_position);
    crate::chunk::lemma_read_after_add(m[k].columns(), b, b.position);
}

/// After a block is removed, its place holds water when water lies beside it,
/// and nothing otherwise.
pub proof fn lemma_remove_then_find(m: Map<(int, int), Chunk>, after: Chunk, b: Block)
    requires
        m.contains_key(chunk_of(b.absolute_position)),
        removed_from(m, after, b),
        b.position == relative_pos(b.absolute_position),
        column_of(b.position) < m[chunk_of(b.absolute_position)].blocks@.len(),
        sat(b.position.y as int) < m[chunk_of(b.absolute_position)].columns()[column_of(b.position)].len(),
    ensures
        block_at_absolute(m.insert(chunk_of(b.absolute_position), after), b.absolute_position) == if water_beside(m, b) {
            Some(Block { block_type: BlockType::Water, ..b })
        } else {
            None
        },
{
    let k = chunk_of(b.absolute_position);
    let emptied = without_block(m[k].columns(), b.position);
    crate::chunk::lemma_read_after_remove(m[k].columns(), b.position, b.position);
    if water_beside(m, b) {
        crate::chunk::lemma_read_after_add(emptied, Block { block_type: BlockType::Water, ..b }, b.position);
    }
}

} // verus!
