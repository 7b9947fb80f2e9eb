use vstd::prelude::*;
use crate::pos::{ChunkPos, WorldPos, NUM_SUBCHUNKS, SUBCHUNK_VOLUME};
use crate::error::WorldError;
use crate::palette::name_fits;
use crate::key::key_bytes;
use crate::subchunk::{
    all_below, decoded_wf, parse_subchunk, storage_wf, subchunk_bytes, subchunk_wf, BlockStorage,
    PaletteEntry, StorageModel, Subchunk,
};
use crate::table::{air_name, intern, intern_all, BlockId, BlockTable};

verus! {

/// One layer of one voxel: a block id of the world's name table and the
/// block's auxiliary value.
#[derive(Debug, Copy, Clone, Hash, PartialEq, Eq, Structural)]
pub struct BlockInfo {
    pub block_id: BlockId,
    pub block_val: u16,
}

/// Both layers of one voxel.
#[derive(Debug, Copy, Clone, Hash, PartialEq, Eq, Structural)]
pub struct BlockData {
    pub layer1: BlockInfo,
    pub layer2: BlockInfo,
}

/// A subchunk in memory: two layers of 4096 cells, indexed by
/// `WorldPos::subchunk_offset`.
#[derive(Debug, Clone)]
pub struct WorldSubchunk {
    pub data1: Vec<BlockInfo>,
    pub data2: Vec<BlockInfo>,
}

/// A chunk in memory: always 16 subchunks.
#[derive(Debug, Clone)]
pub struct Chunk {
    pub subchunks: Vec<WorldSubchunk>,
}

impl View for WorldSubchunk {
    type V = (Seq<BlockInfo>, Seq<BlockInfo>);

    open spec fn view(&self) -> (Seq<BlockInfo>, Seq<BlockInfo>) {
        (self.data1@, self.data2@)
    }
}

impl View for Chunk {
    type V = Seq<(Seq<BlockInfo>, Seq<BlockInfo>)>;

    open spec fn view(&self) -> Seq<(Seq<BlockInfo>, Seq<BlockInfo>)> {
        self.subchunks@.map_values(|s: WorldSubchunk| s@)
    }
}

/// `{ id: 1, val: 0 }`, the air block.
pub open spec fn air_info() -> BlockInfo {
    BlockInfo { block_id: BlockId::spec_new(1), block_val: 0 }
}

pub open spec fn air_layer() -> Seq<BlockInfo> {
    Seq::new(SUBCHUNK_VOLUME as nat, |i: int| air_info())
}

pub open spec fn air_chunk() -> Seq<(Seq<BlockInfo>, Seq<BlockInfo>)> {
    Seq::new(NUM_SUBCHUNKS as nat, |i: int| (air_layer(), air_layer()))
}

pub open spec fn info_valid(n: nat, b: BlockInfo) -> bool {
    1 <= b.block_id@ <= n
}

/// 16 subchunks of two 4096-cell layers whose ids are below `n + 1`.
pub open spec fn chunk_wf(c: Seq<(Seq<BlockInfo>, Seq<BlockInfo>)>, n: nat) -> bool {
    &&& c.len() == NUM_SUBCHUNKS
    &&& forall|s: int|
        #![trigger c[s]]
        0 <= s < c.len() ==> {
            &&& c[s].0.len() == SUBCHUNK_VOLUME
            &&& c[s].1.len() == SUBCHUNK_VOLUME
            &&& forall|k: int| 0 <= k < SUBCHUNK_VOLUME ==> info_valid(n, #[trigger] c[s].0[k])
            &&& forall|k: int| 0 <= k < SUBCHUNK_VOLUME ==> info_valid(n, #[trigger] c[s].1[k])
        }
}

/// The value of a world view: the name table and the chunk cache, where
/// `None` marks a chunk to be deleted on the next save.
pub struct WorldModel {
    pub names: Seq<Seq<char>>,
    pub cache: Map<ChunkPos, Option<Seq<(Seq<BlockInfo>, Seq<BlockInfo>)>>>,
}

impl WorldModel {
    pub open spec fn wf(self) -> bool {
        &&& self.names.len() >= 1
        &&& self.names[0] == air_name()
        &&& self.names.len() < u32::MAX
        &&& self.names.no_duplicates()
        &&& forall|p: ChunkPos| #[trigger]
            self.cache.contains_key(p) && self.cache[p] is Some ==> chunk_wf(
                self.cache[p].unwrap(),
                self.names.len(),
            )
    }

    /// The chunk at `p` is in memory.
    pub open spec fn has_chunk(self, p: ChunkPos) -> bool {
        self.cache.contains_key(p) && self.cache[p] is Some
    }

    /// What `get_block` returns for `p`.
    pub open spec fn block_at(self, p: WorldPos) -> Option<BlockData> {
        let c = p.spec_chunk_pos();
        if self.has_chunk(c) {
            let sc = self.cache[c].unwrap()[p.spec_subchunk_y()];
            Some(
                BlockData {
                    layer1: sc.0[p.spec_subchunk_offset()],
                    layer2: sc.1[p.spec_subchunk_offset()],
                },
            )
        } else {
            None
        }
    }

    /// The view after `set_block(p, d)`.
    pub open spec fn with_block(self, p: WorldPos, d: BlockData) -> WorldModel {
        let c = p.spec_chunk_pos();
        let chunk = self.cache[c].unwrap();
        let sy = p.spec_subchunk_y();
        let off = p.spec_subchunk_offset();
        let sc = chunk[sy];
        WorldModel {
            names: self.names,
            cache: self.cache.insert(
                c,
                Some(chunk.update(sy, (sc.0.update(off, d.layer1), sc.1.update(off, d.layer2)))),
            ),
        }
    }
}

/// Hash map from chunk positions to cached chunks.
#[verifier::external_body]
pub struct ChunkCache {
    map: fnv::FnvHashMap<ChunkPos, Option<Chunk>>,
}

/// The pairs that a [`ChunkCache`] holds.
pub uninterp spec fn cache_entries(c: ChunkCache) -> Map<ChunkPos, Option<Chunk>>;

impl ChunkCache {
    /// Relies on `fnv::FnvHashMap` (std's `HashMap` with the FNV hasher):
    /// `default` makes an empty map.
    #[verifier::external_body]
    fn new() -> (r: ChunkCache)
        ensures
            cache_entries(r) =~= Map::empty(),
    {
        ChunkCache { map: fnv::FnvHashMap::default() }
    }

    /// Relies on `HashMap::get`, for a key type whose `Eq` and `Hash` are
    /// derived from its fields (two integers and a field-less enum).
    #[verifier::external_body]
    fn get(&self, pos: &ChunkPos) -> (r: Option<&Option<Chunk>>)
        ensures
            match r {
                Some(c) => cache_entries(*self).contains_key(*pos) && *c == cache_entries(
                    *self,
                )[*pos],
                None => !cache_entries(*self).contains_key(*pos),
            },
    {
        self.map.get(pos)
    }

    /// Relies on `HashMap::insert`: the key now maps to `entry`, the others
    /// are unchanged.
    #[verifier::external_body]
    fn insert(&mut self, pos: ChunkPos, entry: Option<Chunk>)
        ensures
            cache_entries(*final(self)) == cache_entries(*old(self)).insert(pos, entry),
    {
        self.map.insert(pos, entry);
    }

    /// Relies on `HashMap::remove`: the key's entry is handed out and
    /// dropped from the map.
    #[verifier::external_body]
    fn remove(&mut self, pos: &ChunkPos) -> (r: Option<Option<Chunk>>)
        ensures
            cache_entries(*final(self)) == cache_entries(*old(self)).remove(*pos),
            match r {
                Some(c) => cache_entries(*old(self)).contains_key(*pos) && c == cache_entries(
                    *old(self),
                )[*pos],
                None => !cache_entries(*old(self)).contains_key(*pos),
            },
    {
        self.map.remove(pos)
    }

    /// Relies on `HashMap::keys`: each key once, in the map's own order.
    #[verifier::external_body]
    fn positions(&self) -> (r: Vec<ChunkPos>)
        ensures
            r@.no_duplicates(),
            r@.to_set() == cache_entries(*self).dom(),
    {
        self.map.keys().copied().collect()
    }
}

impl Chunk {
    /// The voxel at `w`, which lies in this chunk.
    pub fn get_block(&self, w: &WorldPos) -> (r: BlockData)
        requires
            chunk_wf(self@, u32::MAX as nat),
        ensures
            r.layer1 == self@[w.spec_subchunk_y()].0[w.spec_subchunk_offset()],
            r.layer2 == self@[w.spec_subchunk_y()].1[w.spec_subchunk_offset()],
    {
        let sub_y = w.subchunk_y();
        let sub_offset = w.subchunk_offset();
        assert(self@[sub_y as int] == self.subchunks@[sub_y as int]@);
        let subchunk = &self.subchunks[sub_y];
        let block1 = subchunk.data1[sub_offset];
        let block2 = subchunk.data2[sub_offset];
        BlockData { layer1: block1, layer2: block2 }
    }

    /// Writes both layers of the voxel at `w`, which lies in this chunk.
    pub fn set_block(&mut self, w: &WorldPos, d: BlockData)
        requires
            chunk_wf(old(self)@, u32::MAX as nat),
        ensures
            ({
                let sy = w.spec_subchunk_y();
                let off = w.spec_subchunk_offset();
                let sc = old(self)@[sy];
                final(self)@ == old(self)@.update(sy, (sc.0.update(off, d.layer1), sc.1.update(off, d.layer2)))
            }),
    {
        let sub_y = w.subchunk_y();
        let sub_offset = w.subchunk_offset();
        let ghost before = self@;
        let mut subchunk = self.subchunks.remove(sub_y);
        assert(subchunk@ == before[sub_y as int]);
        subchunk.data1.set(sub_offset, d.layer1);
        subchunk.data2.set(sub_offset, d.layer2);
        self.subchunks.insert(sub_y, subchunk);
        assert(self@ =~= before.update(
            sub_y as int,
            (before[sub_y as int].0.update(sub_offset as int, d.layer1), before[sub_y as int].1.update(sub_offset as int, d.layer2)),
        ));
    }
}

/// A layer of 4096 air cells.
pub fn create_air_layer() -> (r: Vec<BlockInfo>)
    ensures
        r@ == air_layer(),
{
    let air = BlockInfo { block_id: BlockId::air(), block_val: 0 };
    let r = vec![air; SUBCHUNK_VOLUME];
    assert(r@ =~= air_layer());
    r
}

/// A subchunk whose two layers are all air.
pub fn create_air_subchunk() -> (r: WorldSubchunk)
    ensures
        r@ == (air_layer(), air_layer()),
{
    WorldSubchunk { data1: create_air_layer(), data2: create_air_layer() }
}

/// A chunk of 16 all-air subchunks.
pub fn create_air_chunk() -> (r: Chunk)
    ensures
        r@ == air_chunk(),
{
    let mut subchunks: Vec<WorldSubchunk> = Vec::new();
    let mut i: u8 = 0;
    while i < NUM_SUBCHUNKS
        invariant
            i <= NUM_SUBCHUNKS,
            subchunks@.len() == i,
            forall|k: int| 0 <= k < i ==> (#[trigger] subchunks@[k])@ == (air_layer(), air_layer()),
        decreases NUM_SUBCHUNKS - i,
    {
        subchunks.push(create_air_subchunk());
        i = i + 1;
    }
    let r = Chunk { subchunks };
    assert(r@ =~= air_chunk());
    r
}

proof fn lemma_air_chunk_wf(n: nat)
    requires
        1 <= n <= u32::MAX,
    ensures
        chunk_wf(air_chunk(), n),
{
    BlockId::lemma_spec_new(1);
}

/// The world view: a block-name table and a write-back cache of chunks.
/// Reading and writing the store is left to the caller: it hands in the
/// records of a chunk to load, and carries out the operations of a save.
pub struct World {
    table: BlockTable,
    cache: ChunkCache,
}

pub open spec fn opt_chunk_view(o: Option<Chunk>) -> Option<Seq<(Seq<BlockInfo>, Seq<BlockInfo>)>> {
    match o {
        Some(c) => Some(c@),
        None => None,
    }
}

impl View for World {
    type V = WorldModel;

    closed spec fn view(&self) -> WorldModel {
        WorldModel {
            names: self.table.names(),
            cache: cache_entries(self.cache).map_values(|o: Option<Chunk>| opt_chunk_view(o)),
        }
    }
}

impl World {
    pub closed spec fn wf(&self) -> bool {
        &&& self.table.wf()
        &&& self@.wf()
    }

    /// A well-formed world has a well-formed view, so the laws over
    /// [`WorldModel`] apply to it.
    pub proof fn lemma_view_wf(&self)
        requires
            self.wf(),
        ensures
            self@.wf(),
    {
    }

    proof fn lemma_view(&self)
        ensures
            self@.names == self.table.names(),
            self@.cache.dom() == cache_entries(self.cache).dom(),
            forall|p: ChunkPos| #[trigger]
                cache_entries(self.cache).contains_key(p) ==> self@.cache[p] == opt_chunk_view(
                    cache_entries(self.cache)[p],
                ),
    {
    }

    /// An empty view: no chunk cached, only `minecraft:air` named.
    pub fn new() -> (r: World)
        ensures
            r.wf(),
            r@.names == seq![air_name()],
            r@.cache =~= Map::empty(),
    {
        let r = World { table: BlockTable::new(), cache: ChunkCache::new() };
        proof {
            r.table.lemma_wf();
            assert(r@.cache =~= Map::empty());
        }
        r
    }

    /// Whether the cache has an entry for `pos`, a chunk or a deletion.
    pub fn is_cached(&self, pos: &ChunkPos) -> (r: bool)
        ensures
            r == self@.cache.contains_key(*pos),
    {
        self.cache.get(pos).is_some()
    }

    /// Number of names in the table.
    pub fn name_count(&self) -> (r: usize)
        ensures
            r == self@.names.len(),
    {
        self.table.len()
    }

    /// The voxel at `pos`, or `None` when its chunk is not in memory.
    pub fn get_block(&self, pos: &WorldPos) -> (r: Option<BlockData>)
        requires
            self.wf(),
        ensures
            r == self@.block_at(*pos),
    {
        let chunk_pos = pos.chunk_pos();
        proof {
            self.lemma_view();
        }
        match self.cache.get(&chunk_pos) {
            Some(Some(chunk)) => {
                proof {
                    assert(self@.cache.contains_key(chunk_pos));
                    let c = self@.cache[chunk_pos].unwrap();
                    assert(chunk_wf(c, self@.names.len()));
                    lemma_chunk_wf_weaken(c, self@.names.len());
                }
                Some(chunk.get_block(pos))
            },
            _ => None,
        }
    }

    /// Writes both layers of the voxel at `pos`; its chunk must be in memory.
    pub fn set_block(&mut self, pos: &WorldPos, data: BlockData)
        requires
            old(self).wf(),
            old(self)@.has_chunk(pos.spec_chunk_pos()),
            info_valid(old(self)@.names.len(), data.layer1),
            info_valid(old(self)@.names.len(), data.layer2),
        ensures
            final(self).wf(),
            final(self)@ == old(self)@.with_block(*pos, data),
    {
        let chunk_pos = pos.chunk_pos();
        proof {
            self.lemma_view();
        }
        let ghost before = self@;
        let entry = self.cache.remove(&chunk_pos);
        match entry {
            Some(Some(mut chunk)) => {
                proof {
                    lemma_chunk_wf_weaken(chunk@, before.names.len());
                }
                chunk.set_block(pos, data);
                self.cache.insert(chunk_pos, Some(chunk));
                proof {
                    let after = before.with_block(*pos, data);
                    assert(self@.cache =~= after.cache);
                    lemma_with_block_wf(before, *pos, data);
                }
            },
            _ => {
                assert(false);
            },
        }
    }

    /// Marks the chunk at `pos` for deletion on the next save; until then
    /// its voxels read as absent.
    pub fn delete_chunk(&mut self, pos: ChunkPos)
        requires
            old(self).wf(),
        ensures
            final(self).wf(),
            final(self)@ == (WorldModel { names: old(self)@.names, cache: old(self)@.cache.insert(pos, None) }),
    {
        self.cache.insert(pos, None);
        assert(self@.cache =~= old(self)@.cache.insert(pos, None));
    }

    /// Installs an all-air chunk at `pos`, replacing any cached entry.
    pub fn add_chunk(&mut self, pos: ChunkPos)
        requires
            old(self).wf(),
        ensures
            final(self).wf(),
            final(self)@ == (WorldModel {
                names: old(self)@.names,
                cache: old(self)@.cache.insert(pos, Some(air_chunk())),
            }),
    {
        let chunk = create_air_chunk();
        self.cache.insert(pos, Some(chunk));
        proof {
            lemma_air_chunk_wf(self@.names.len());
        }
        assert(self@.cache =~= old(self)@.cache.insert(pos, Some(air_chunk())));
    }

    /// The id of the block name `name`, allocating the next id for a new name.
    pub fn block_id(&mut self, name: &str) -> (r: BlockId)
        requires
            old(self).wf(),
            old(self)@.names.len() + 1 < u32::MAX,
            name_fits(name@),
        ensures
            final(self).wf(),
            (final(self)@.names, r@) == crate::table::intern(old(self)@.names, name@),
            final(self)@.cache == old(self)@.cache,
    {
        let ghost before = self@;
        let r = self.table.get_id(name);
        proof {
            self.table.lemma_wf();
            assert(self@.cache =~= before.cache);
            lemma_names_grow_wf(before, self@);
        }
        r
    }

    /// The name that `id` stands for.
    pub fn block_name(&self, id: BlockId) -> (r: String)
        requires
            self.wf(),
            1 <= id@ <= self@.names.len(),
        ensures
            r@ == self@.names[id@ - 1],
    {
        self.table.get_name(id).to_owned()
    }
}

proof fn lemma_chunk_wf_weaken(c: Seq<(Seq<BlockInfo>, Seq<BlockInfo>)>, n: nat)
    requires
        chunk_wf(c, n),
        n <= u32::MAX,
    ensures
        chunk_wf(c, u32::MAX as nat),
{
    assert forall|s: int| #![trigger c[s]] 0 <= s < c.len() implies (forall|k: int|
        0 <= k < SUBCHUNK_VOLUME ==> info_valid(u32::MAX as nat, #[trigger] c[s].0[k])) && (forall|k: int|
        0 <= k < SUBCHUNK_VOLUME ==> info_valid(u32::MAX as nat, #[trigger] c[s].1[k])) by {
        assert forall|k: int| 0 <= k < SUBCHUNK_VOLUME implies info_valid(u32::MAX as nat, #[trigger] c[s].0[k]) by {
            assert(info_valid(n, c[s].0[k]));
        }
        assert forall|k: int| 0 <= k < SUBCHUNK_VOLUME implies info_valid(u32::MAX as nat, #[trigger] c[s].1[k]) by {
            assert(info_valid(n, c[s].1[k]));
        }
    }
}

proof fn lemma_chunk_wf_grow(c: Seq<(Seq<BlockInfo>, Seq<BlockInfo>)>, n: nat, m: nat)
    requires
        chunk_wf(c, n),
        n <= m,
    ensures
        chunk_wf(c, m),
{
    assert forall|s: int| #![trigger c[s]] 0 <= s < c.len() implies (forall|k: int|
        0 <= k < SUBCHUNK_VOLUME ==> info_valid(m, #[trigger] c[s].0[k])) && (forall|k: int|
        0 <= k < SUBCHUNK_VOLUME ==> info_valid(m, #[trigger] c[s].1[k])) by {
        assert forall|k: int| 0 <= k < SUBCHUNK_VOLUME implies info_valid(m, #[trigger] c[s].0[k]) by {
            assert(info_valid(n, c[s].0[k]));
        }
        assert forall|k: int| 0 <= k < SUBCHUNK_VOLUME implies info_valid(m, #[trigger] c[s].1[k]) by {
            assert(info_valid(n, c[s].1[k]));
        }
    }
}

proof fn lemma_names_grow_wf(a: WorldModel, b: WorldModel)
    requires
        a.wf(),
        b.cache == a.cache,
        b.names.len() >= a.names.len(),
        b.names.len() >= 1,
        b.names[0] == air_name(),
        b.names.len() < u32::MAX,
        b.names.no_duplicates(),
    ensures
        b.wf(),
{
    assert forall|p: ChunkPos| #[trigger] b.cache.contains_key(p) && b.cache[p] is Some implies chunk_wf(
        b.cache[p].unwrap(),
        b.names.len(),
    ) by {
        lemma_chunk_wf_grow(a.cache[p].unwrap(), a.names.len(), b.names.len());
    }
}

proof fn lemma_with_block_wf(m: WorldModel, p: WorldPos, d: BlockData)
    requires
        m.wf(),
        m.has_chunk(p.spec_chunk_pos()),
        info_valid(m.names.len(), d.layer1),
        info_valid(m.names.len(), d.layer2),
    ensures
        m.with_block(p, d).wf(),
{
    let c = p.spec_chunk_pos();
    let chunk = m.cache[c].unwrap();
    let after = m.with_block(p, d);
    let sy = p.spec_subchunk_y();
    let off = p.spec_subchunk_offset();
    assert(chunk_wf(chunk, m.names.len()));
    let nc = after.cache[c].unwrap();
    assert forall|s: int| #![trigger nc[s]] 0 <= s < nc.len() implies (forall|k: int|
        0 <= k < SUBCHUNK_VOLUME ==> info_valid(m.names.len(), #[trigger] nc[s].0[k])) && (forall|k: int|
        0 <= k < SUBCHUNK_VOLUME ==> info_valid(m.names.len(), #[trigger] nc[s].1[k])) && nc[s].0.len()
        == SUBCHUNK_VOLUME && nc[s].1.len() == SUBCHUNK_VOLUME by {
        assert(chunk[s].0.len() == SUBCHUNK_VOLUME);
        assert forall|k: int| 0 <= k < SUBCHUNK_VOLUME implies info_valid(m.names.len(), #[trigger] nc[s].0[k]) by {
            if s != sy || k != off {
                assert(info_valid(m.names.len(), chunk[s].0[k]));
            }
        }
        assert forall|k: int| 0 <= k < SUBCHUNK_VOLUME implies info_valid(m.names.len(), #[trigger] nc[s].1[k]) by {
            if s != sy || k != off {
                assert(info_valid(m.names.len(), chunk[s].1[k]));
            }
        }
    }
    assert(chunk_wf(nc, m.names.len()));
}

/// After `set_block(p, d)` on a chunk in memory, `get_block(p)` gives `d`.
pub proof fn lemma_cache_coherence(m: WorldModel, p: WorldPos, d: BlockData)
    requires
        m.wf(),
        m.has_chunk(p.spec_chunk_pos()),
    ensures
        m.with_block(p, d).block_at(p) == Some(d),
{
    let c = p.spec_chunk_pos();
    assert(chunk_wf(m.cache[c].unwrap(), m.names.len()));
    assert(0 <= p.spec_subchunk_y() < 16);
    assert(0 <= p.spec_subchunk_offset() < 4096);
}

/// The voxel at inner position `(0, 0, 0)` of a chunk.
pub open spec fn chunk_origin(c: ChunkPos) -> WorldPos {
    WorldPos { x: (16 * c.x) as i32, y: 0, z: (16 * c.z) as i32, dimension: c.dimension }
}

/// `delete_chunk(p)` then `add_chunk(p)` leaves air at `(p, 0, 0, 0)`.
pub proof fn lemma_delete_then_add(m: WorldModel, c: ChunkPos)
    requires
        i32::MIN <= 16 * c.x <= i32::MAX,
        i32::MIN <= 16 * c.z <= i32::MAX,
    ensures
        ({
            let deleted = WorldModel { names: m.names, cache: m.cache.insert(c, None) };
            let added = WorldModel { names: deleted.names, cache: deleted.cache.insert(c, Some(air_chunk())) };
            added.block_at(chunk_origin(c)) == Some(BlockData { layer1: air_info(), layer2: air_info() })
        }),
{
    let w = chunk_origin(c);
    assert(w.x == 16 * c.x);
    assert(w.z == 16 * c.z);
    assert((16 * (c.x as int)) / 16 == c.x) by (nonlinear_arith);
    assert((16 * (c.z as int)) / 16 == c.z) by (nonlinear_arith);
    assert(w.spec_chunk_pos() == c);
    assert(w.spec_subchunk_y() == 0);
    assert(w.spec_subchunk_offset() == 0) by {
        assert((16 * c.x) % 16 == 0) by (nonlinear_arith);
        assert((16 * c.z) % 16 == 0) by (nonlinear_arith);
    }
}

// ----- loading a chunk -----

pub open spec fn palette_names(p: Seq<(Seq<char>, u16)>) -> Seq<Seq<char>> {
    p.map_values(|e: (Seq<char>, u16)| e.0)
}

/// The palette names of the layers, in order.
pub open spec fn storages_names(ss: Seq<StorageModel>) -> Seq<Seq<char>>
    decreases ss.len(),
{
    if ss.len() == 0 {
        Seq::empty()
    } else {
        storages_names(ss.drop_last()) + palette_names(ss.last().palette)
    }
}

/// The palette names of the present subchunks, in order.
pub open spec fn records_names(ds: Seq<Option<Seq<StorageModel>>>) -> Seq<Seq<char>>
    decreases ds.len(),
{
    if ds.len() == 0 {
        Seq::empty()
    } else {
        records_names(ds.drop_last()) + match ds.last() {
            Some(ss) => storages_names(ss),
            None => Seq::empty(),
        }
    }
}

/// A stored layer with each palette index replaced by the table id of the
/// entry's name and the entry's value.
pub open spec fn translated_layer(names: Seq<Seq<char>>, st: StorageModel) -> Seq<BlockInfo> {
    Seq::new(
        st.blocks.len(),
        |i: int|
            BlockInfo {
                block_id: BlockId::spec_new((names.index_of(st.palette[st.blocks[i] as int].0) + 1) as nat),
                block_val: st.palette[st.blocks[i] as int].1,
            },
    )
}

/// A stored subchunk in memory; a missing second layer is air.
pub open spec fn translated_subchunk(names: Seq<Seq<char>>, ss: Seq<StorageModel>) -> (
    Seq<BlockInfo>,
    Seq<BlockInfo>,
) {
    (
        translated_layer(names, ss[0]),
        if ss.len() > 1 {
            translated_layer(names, ss[1])
        } else {
            air_layer()
        },
    )
}

pub open spec fn loaded_subchunk(names: Seq<Seq<char>>, d: Option<Seq<StorageModel>>) -> (
    Seq<BlockInfo>,
    Seq<BlockInfo>,
) {
    match d {
        Some(ss) => translated_subchunk(names, ss),
        None => (air_layer(), air_layer()),
    }
}

/// The chunk made of the decoded subchunks; a missing one is air.
pub open spec fn loaded_chunk(names: Seq<Seq<char>>, ds: Seq<Option<Seq<StorageModel>>>) -> Seq<
    (Seq<BlockInfo>, Seq<BlockInfo>),
> {
    Seq::new(NUM_SUBCHUNKS as nat, |i: int| loaded_subchunk(names, ds[i]))
}

pub open spec fn records_view(records: Seq<Option<Vec<u8>>>) -> Seq<Option<Seq<u8>>> {
    records.map_values(
        |o: Option<Vec<u8>>|
            match o {
                Some(b) => Some(b@),
                None => None,
            },
    )
}

/// The records decoded in order; the first record that fails gives the error.
pub open spec fn decode_records(rs: Seq<Option<Seq<u8>>>) -> Result<Seq<Option<Seq<StorageModel>>>, WorldError>
    decreases rs.len(),
{
    if rs.len() == 0 {
        Ok(Seq::empty())
    } else {
        match decode_records(rs.drop_last()) {
            Err(e) => Err(e),
            Ok(ds) => match rs.last() {
                None => Ok(ds.push(None)),
                Some(b) => match parse_subchunk(b) {
                    Err(e) => Err(e),
                    Ok(ss) => Ok(ds.push(Some(ss))),
                },
            },
        }
    }
}

/// Every palette name of `ss` is in the table.
pub open spec fn names_cover(names: Seq<Seq<char>>, ss: Seq<StorageModel>) -> bool {
    forall|i: int, k: int|
        0 <= i < ss.len() && 0 <= k < ss[i].palette.len() ==> names.contains(
            #[trigger] ss[i].palette[k].0,
        )
}

pub open spec fn is_prefix(a: Seq<Seq<char>>, b: Seq<Seq<char>>) -> bool {
    a.len() <= b.len() && b.subrange(0, a.len() as int) == a
}

proof fn lemma_index_of_unique(s: Seq<Seq<char>>, j: int)
    requires
        s.no_duplicates(),
        0 <= j < s.len(),
    ensures
        s.index_of(s[j]) == j,
{
    assert(s.contains(s[j]));
    let k = s.index_of(s[j]);
    assert(s[k] == s[j]);
}

proof fn lemma_index_of_prefix(a: Seq<Seq<char>>, b: Seq<Seq<char>>, x: Seq<char>)
    requires
        is_prefix(a, b),
        b.no_duplicates(),
        a.contains(x),
    ensures
        b.contains(x),
        b.index_of(x) == a.index_of(x),
        0 <= a.index_of(x) < a.len(),
        a[a.index_of(x)] == x,
{
    let j = a.index_of(x);
    assert(a[j] == x);
    assert(b[j] == b.subrange(0, a.len() as int)[j]);
    lemma_index_of_unique(b, j);
}

proof fn lemma_intern_step(n: Seq<Seq<char>>, x: Seq<char>)
    requires
        n.no_duplicates(),
    ensures
        is_prefix(n, intern(n, x).0),
        intern(n, x).0.no_duplicates(),
        intern(n, x).0.contains(x),
        intern(n, x).1 == intern(n, x).0.index_of(x) + 1,
        intern(n, x).0.len() <= n.len() + 1,
{
    let m = intern(n, x).0;
    if n.contains(x) {
        assert(m.subrange(0, n.len() as int) =~= n);
        let j = n.index_of(x);
        assert(n[j] == x);
    } else {
        assert(m.subrange(0, n.len() as int) =~= n);
        assert forall|a: int, b: int| 0 <= a < m.len() && 0 <= b < m.len() && a != b implies m[a] != m[b] by {
            if a == n.len() {
                assert(m[b] == n[b]);
            } else if b == n.len() {
                assert(m[a] == n[a]);
            }
        }
        assert(m[n.len() as int] == x);
        lemma_index_of_unique(m, n.len() as int);
    }
}

proof fn lemma_prefix_trans(a: Seq<Seq<char>>, b: Seq<Seq<char>>, c: Seq<Seq<char>>)
    requires
        is_prefix(a, b),
        is_prefix(b, c),
    ensures
        is_prefix(a, c),
{
    assert(c.subrange(0, a.len() as int) =~= b.subrange(0, a.len() as int));
}

proof fn lemma_contains_prefix(a: Seq<Seq<char>>, b: Seq<Seq<char>>, x: Seq<char>)
    requires
        is_prefix(a, b),
        a.contains(x),
    ensures
        b.contains(x),
{
    let j = a.index_of(x);
    assert(a[j] == x);
    assert(b[j] == b.subrange(0, a.len() as int)[j]);
}

pub proof fn lemma_intern_all_append(n: Seq<Seq<char>>, a: Seq<Seq<char>>, b: Seq<Seq<char>>)
    ensures
        intern_all(n, a + b).0 == intern_all(intern_all(n, a).0, b).0,
    decreases b.len(),
{
    if b.len() == 0 {
        assert(a + b =~= a);
    } else {
        assert((a + b).drop_last() =~= a + b.drop_last());
        lemma_intern_all_append(n, a, b.drop_last());
    }
}

proof fn lemma_intern_all_grows(n: Seq<Seq<char>>, a: Seq<Seq<char>>)
    requires
        n.no_duplicates(),
    ensures
        intern_all(n, a).0.len() <= n.len() + a.len(),
        is_prefix(n, intern_all(n, a).0),
        intern_all(n, a).0.no_duplicates(),
    decreases a.len(),
{
    if a.len() == 0 {
        assert(n.subrange(0, n.len() as int) =~= n);
    } else {
        lemma_intern_all_grows(n, a.drop_last());
        let m = intern_all(n, a.drop_last()).0;
        lemma_intern_step(m, a.last());
        lemma_prefix_trans(n, m, intern(m, a.last()).0);
    }
}

/// A translated layer does not change when the table grows by new names.
proof fn lemma_translated_stable(n1: Seq<Seq<char>>, n2: Seq<Seq<char>>, st: StorageModel)
    requires
        is_prefix(n1, n2),
        n2.no_duplicates(),
        all_below(st.blocks, st.palette.len()),
        forall|k: int| 0 <= k < st.palette.len() ==> n1.contains(#[trigger] st.palette[k].0),
    ensures
        translated_layer(n1, st) == translated_layer(n2, st),
{
    assert forall|i: int| 0 <= i < st.blocks.len() implies #[trigger] translated_layer(n1, st)[i]
        == translated_layer(n2, st)[i] by {
        let k = st.blocks[i] as int;
        assert(st.blocks[i] < st.palette.len());
        lemma_index_of_prefix(n1, n2, st.palette[k].0);
    }
    assert(translated_layer(n1, st) =~= translated_layer(n2, st));
}

proof fn lemma_translated_valid(names: Seq<Seq<char>>, st: StorageModel)
    requires
        names.len() < u32::MAX,
        all_below(st.blocks, st.palette.len()),
        forall|k: int| 0 <= k < st.palette.len() ==> names.contains(#[trigger] st.palette[k].0),
    ensures
        forall|i: int| 0 <= i < st.blocks.len() ==> info_valid(names.len(), #[trigger] translated_layer(names, st)[i]),
{
    assert forall|i: int| 0 <= i < st.blocks.len() implies info_valid(names.len(), #[trigger] translated_layer(names, st)[i]) by {
        let k = st.blocks[i] as int;
        assert(st.blocks[i] < st.palette.len());
        let x = st.palette[k].0;
        assert(names.contains(x));
        let j = names.index_of(x);
        assert(0 <= j < names.len() && names[j] == x);
        BlockId::lemma_spec_new((j + 1) as nat);
    }
}

/// Resolves the palette of a stored layer through the table and gives the
/// layer in memory.
pub fn translate_block_storage(table: &mut BlockTable, storage: &BlockStorage) -> (r: Vec<BlockInfo>)
    requires
        old(table).wf(),
        storage@.blocks.len() == SUBCHUNK_VOLUME,
        all_below(storage@.blocks, storage@.palette.len()),
        forall|k: int| 0 <= k < storage@.palette.len() ==> name_fits(#[trigger] storage@.palette[k].0),
        old(table).names().len() + storage@.palette.len() + 1 < u32::MAX,
    ensures
        final(table).wf(),
        final(table).names() == intern_all(old(table).names(), palette_names(storage@.palette)).0,
        is_prefix(old(table).names(), final(table).names()),
        forall|k: int| 0 <= k < storage@.palette.len() ==> final(table).names().contains(#[trigger] storage@.palette[k].0),
        r@ == translated_layer(final(table).names(), storage@),
{
    let ghost n0 = table.names();
    let ghost st = storage@;
    let ghost pn = palette_names(st.palette);
    proof {
        table.lemma_wf();
        assert(n0.subrange(0, n0.len() as int) =~= n0);
        assert(pn.take(0) =~= Seq::<Seq<char>>::empty());
    }
    let mut resolved: Vec<BlockId> = Vec::new();
    let mut k: usize = 0;
    while k < storage.palette.len()
        invariant
            table.wf(),
            st == storage@,
            pn == palette_names(st.palette),
            forall|j: int| 0 <= j < st.palette.len() ==> name_fits(#[trigger] st.palette[j].0),
            n0.no_duplicates(),
            k <= st.palette.len(),
            n0.len() + st.palette.len() + 1 < u32::MAX,
            table.names() == intern_all(n0, pn.take(k as int)).0,
            table.names().len() <= n0.len() + k,
            is_prefix(n0, table.names()),
            resolved@.len() == k,
            forall|j: int|
                0 <= j < k ==> table.names().contains(#[trigger] st.palette[j].0) && resolved@[j]@
                    == table.names().index_of(st.palette[j].0) + 1,
        decreases st.palette.len() - k,
    {
        let ghost before = table.names();
        proof {
            table.lemma_wf();
        }
        assert(name_fits(st.palette[k as int].0));
        let id = table.get_id(storage.palette[k].name.as_str());
        proof {
            let x = st.palette[k as int].0;
            assert(storage.palette@[k as int]@ == st.palette[k as int]);
            lemma_intern_step(before, x);
            lemma_prefix_trans(n0, before, table.names());
            assert(pn.take(k + 1).drop_last() =~= pn.take(k as int));
            assert(pn.take(k + 1).last() == x);
            assert forall|j: int| 0 <= j < k implies table.names().contains(#[trigger] st.palette[j].0)
                && resolved@[j]@ == table.names().index_of(st.palette[j].0) + 1 by {
                lemma_index_of_prefix(before, table.names(), st.palette[j].0);
            }
        }
        resolved.push(id);
        k = k + 1;
    }
    let ghost names = table.names();
    assert(pn.take(k as int) =~= pn);
    let mut layer: Vec<BlockInfo> = Vec::new();
    let mut i: usize = 0;
    while i < storage.blocks.len()
        invariant
            st == storage@,
            names == table.names(),
            i <= st.blocks.len(),
            resolved@.len() == st.palette.len(),
            all_below(st.blocks, st.palette.len()),
            forall|j: int|
                0 <= j < st.palette.len() ==> names.contains(#[trigger] st.palette[j].0) && resolved@[j]@
                    == names.index_of(st.palette[j].0) + 1,
            layer@ =~= translated_layer(names, st).take(i as int),
        decreases st.blocks.len() - i,
    {
        let b = storage.blocks[i] as usize;
        assert(st.blocks[i as int] < st.palette.len());
        let description = &storage.palette[b];
        assert(description@ == st.palette[b as int]);
        let info = BlockInfo { block_id: resolved[b], block_val: description.val };
        proof {
            BlockId::lemma_spec_new_of_view(resolved@[b as int]);
        }
        layer.push(info);
        i = i + 1;
    }
    assert(translated_layer(names, st).take(i as int) =~= translated_layer(names, st));
    layer
}

/// A decoded subchunk in memory, its palettes resolved through the table.
pub fn convert_subchunk(table: &mut BlockTable, sc: &Subchunk) -> (r: WorldSubchunk)
    requires
        old(table).wf(),
        decoded_wf(sc@),
        old(table).names().len() + storages_names(sc@).len() + 1 < u32::MAX,
    ensures
        final(table).wf(),
        final(table).names() == intern_all(old(table).names(), storages_names(sc@)).0,
        is_prefix(old(table).names(), final(table).names()),
        names_cover(final(table).names(), sc@),
        r@ == translated_subchunk(final(table).names(), sc@),
{
    let ghost n0 = table.names();
    let ghost ss = sc@;
    let count = sc.block_storages.len();
    assert(sc.block_storages@[0]@ == ss[0]);
    assert(ss.take(1).drop_last() =~= Seq::<StorageModel>::empty());
    assert(ss.take(1).last() == ss[0]);
    assert(storages_names(Seq::<StorageModel>::empty()) =~= Seq::<Seq<char>>::empty());
    assert(storages_names(ss.take(1)) =~= palette_names(ss[0].palette));
    proof {
        lemma_storages_names_prefix(ss, 1);
    }
    let bs1 = translate_block_storage(table, &sc.block_storages[0]);
    let ghost n1 = table.names();
    // second block storage might be missing
    let bs2 = if count > 1 {
        assert(sc.block_storages@[1]@ == ss[1]);
        assert(ss.take(2) =~= ss);
        assert(ss.drop_last() =~= ss.take(1));
        proof {
            table.lemma_wf();
            lemma_intern_all_grows(n0, palette_names(ss[0].palette));
            assert(palette_names(ss[1].palette).len() == ss[1].palette.len());
        }
        let layer = translate_block_storage(table, &sc.block_storages[1]);
        proof {
            table.lemma_wf();
            lemma_translated_stable(n1, table.names(), ss[0]);
            lemma_intern_all_append(n0, palette_names(ss[0].palette), palette_names(ss[1].palette));
            lemma_prefix_trans(n0, n1, table.names());
            assert forall|i: int, k: int|
                0 <= i < ss.len() && 0 <= k < ss[i].palette.len() implies table.names().contains(
                #[trigger] ss[i].palette[k].0,
            ) by {
                if i == 0 {
                    lemma_contains_prefix(n1, table.names(), ss[0].palette[k].0);
                }
            }
        }
        layer
    } else {
        assert(ss.take(1) =~= ss);
        create_air_layer()
    };
    WorldSubchunk { data1: bs1, data2: bs2 }
}

proof fn lemma_storages_names_prefix(ss: Seq<StorageModel>, j: int)
    requires
        0 <= j <= ss.len(),
    ensures
        storages_names(ss.take(j)).len() <= storages_names(ss).len(),
    decreases ss.len() - j,
{
    if j < ss.len() {
        lemma_storages_names_prefix(ss, j + 1);
        assert(ss.take(j + 1).drop_last() =~= ss.take(j));
    } else {
        assert(ss.take(j) =~= ss);
    }
}

proof fn lemma_records_names_prefix(ds: Seq<Option<Seq<StorageModel>>>, j: int)
    requires
        0 <= j <= ds.len(),
    ensures
        records_names(ds.take(j)).len() <= records_names(ds).len(),
    decreases ds.len() - j,
{
    if j < ds.len() {
        lemma_records_names_prefix(ds, j + 1);
        assert(ds.take(j + 1).drop_last() =~= ds.take(j));
    } else {
        assert(ds.take(j) =~= ds);
    }
}

proof fn lemma_decode_error_stays(rs: Seq<Option<Seq<u8>>>, i: int)
    requires
        0 <= i <= rs.len(),
        decode_records(rs.take(i)) is Err,
    ensures
        decode_records(rs) == decode_records(rs.take(i)),
    decreases rs.len() - i,
{
    if i < rs.len() {
        assert(rs.take(i + 1).drop_last() =~= rs.take(i));
        lemma_decode_error_stays(rs, i + 1);
    } else {
        assert(rs.take(i) =~= rs);
    }
}

pub open spec fn decoded_view(v: Seq<Option<Subchunk>>) -> Seq<Option<Seq<StorageModel>>> {
    v.map_values(
        |o: Option<Subchunk>|
            match o {
                Some(s) => Some(s@),
                None => None,
            },
    )
}

/// Decodes the present records in order, stopping at the first error.
fn decode_all(records: &Vec<Option<Vec<u8>>>) -> (r: Result<Vec<Option<Subchunk>>, WorldError>)
    ensures
        match r {
            Ok(v) => decode_records(records_view(records@)) == Ok::<_, WorldError>(decoded_view(v@))
                && v@.len() == records@.len() && forall|i: int|
                0 <= i < v@.len() && (#[trigger] v@[i]) is Some ==> decoded_wf(v@[i].unwrap()@),
            Err(e) => decode_records(records_view(records@)) == Err::<Seq<Option<Seq<StorageModel>>>, _>(e),
        },
{
    let ghost rs = records_view(records@);
    let mut decoded: Vec<Option<Subchunk>> = Vec::new();
    let mut i: usize = 0;
    assert(rs.take(0) =~= Seq::<Option<Seq<u8>>>::empty());
    assert(decoded_view(decoded@) =~= Seq::empty());
    while i < records.len()
        invariant
            rs == records_view(records@),
            i <= records@.len(),
            decoded@.len() == i,
            decode_records(rs.take(i as int)) == Ok::<_, WorldError>(decoded_view(decoded@)),
            forall|k: int| 0 <= k < i && (#[trigger] decoded@[k]) is Some ==> decoded_wf(decoded@[k].unwrap()@),
        decreases records@.len() - i,
    {
        assert(rs.take(i + 1).drop_last() =~= rs.take(i as int));
        let ghost before = decoded@;
        match &records[i] {
            Some(bytes) => {
                assert(rs[i as int] == Some(bytes@));
                match Subchunk::deserialize(bytes.as_slice()) {
                    Ok(sc) => {
                        decoded.push(Some(sc));
                    },
                    Err(e) => {
                        proof {
                            lemma_decode_error_stays(rs, i + 1);
                        }
                        return Err(e);
                    },
                }
            },
            None => {
                assert(rs[i as int] is None);
                decoded.push(None);
            },
        }
        assert(decoded_view(decoded@) =~= decoded_view(before).push(decoded_view(decoded@).last()));
        i = i + 1;
    }
    assert(rs.take(i as int) =~= rs);
    Ok(decoded)
}

/// Cap on a name count: at least as many ids as 32 bits hold.
pub const NAME_COUNT_CAP: u64 = 0xffff_ffff;

pub open spec fn capped(n: nat) -> nat {
    if n >= NAME_COUNT_CAP {
        NAME_COUNT_CAP as nat
    } else {
        n
    }
}

/// How many palette names the decoded subchunks hold, capped.
fn count_names(decoded: &Vec<Option<Subchunk>>) -> (r: u64)
    ensures
        r == capped(records_names(decoded_view(decoded@)).len()),
{
    let ghost ds = decoded_view(decoded@);
    let mut total: u64 = 0;
    let mut i: usize = 0;
    assert(ds.take(0) =~= Seq::<Option<Seq<StorageModel>>>::empty());
    while i < decoded.len()
        invariant
            ds == decoded_view(decoded@),
            i <= decoded@.len(),
            total == capped(records_names(ds.take(i as int)).len()),
        decreases decoded@.len() - i,
    {
        assert(ds.take(i + 1).drop_last() =~= ds.take(i as int));
        match &decoded[i] {
            Some(sc) => {
                let ghost ss = sc@;
                assert(ds[i as int] == Some(ss));
                let mut j: usize = 0;
                let ghost base = records_names(ds.take(i as int)).len();
                assert(ss.take(0) =~= Seq::<StorageModel>::empty());
                while j < sc.block_storages.len()
                    invariant
                        ss == sc@,
                        j <= ss.len(),
                        total == capped(base + storages_names(ss.take(j as int)).len()),
                    decreases ss.len() - j,
                {
                    assert(ss.take(j + 1).drop_last() =~= ss.take(j as int));
                    assert(sc.block_storages@[j as int]@ == ss[j as int]);
                    let n = sc.block_storages[j].palette.len() as u64;
                    assert(palette_names(ss[j as int].palette).len() == n);
                    total = if n >= NAME_COUNT_CAP - total {
                        NAME_COUNT_CAP
                    } else {
                        total + n
                    };
                    j = j + 1;
                }
                assert(ss.take(j as int) =~= ss);
            },
            None => {},
        }
        i = i + 1;
    }
    assert(ds.take(i as int) =~= ds);
    total
}

impl World {
    /// Installs the chunk at `pos` from its 16 subchunk records as read from
    /// the store (`records[i]` for height index `i`, `None` where absent).
    /// Returns `Ok(false)`, caching nothing, when subchunk 0 is absent: the
    /// chunk does not exist. Otherwise decodes every present record, resolves
    /// the palette names through the table in order, fills absent subchunks
    /// and missing second layers with air, and caches the chunk.
    pub fn load_chunk(&mut self, pos: &ChunkPos, records: &Vec<Option<Vec<u8>>>) -> (r: Result<bool, WorldError>)
        requires
            old(self).wf(),
            records@.len() == NUM_SUBCHUNKS,
            !old(self)@.cache.contains_key(*pos),
        ensures
            final(self).wf(),
            records@[0] is None ==> r == Ok::<bool, WorldError>(false) && final(self)@ == old(self)@,
            records@[0] is Some ==> match decode_records(records_view(records@)) {
                Err(e) => r == Err::<bool, WorldError>(e) && final(self)@ == old(self)@,
                Ok(ds) => if old(self)@.names.len() + records_names(ds).len() + 1 >= u32::MAX {
                    r == Err::<bool, WorldError>(WorldError::TooManyNames) && final(self)@ == old(self)@
                } else {
                    &&& r == Ok::<bool, WorldError>(true)
                    &&& final(self)@.names == intern_all(old(self)@.names, records_names(ds)).0
                    &&& final(self)@.cache == old(self)@.cache.insert(
                        *pos,
                        Some(loaded_chunk(final(self)@.names, ds)),
                    )
                },
            },
    {
        // If the bottom-most subchunk is not there, the chunk has not been
        // stored in the world.
        if records[0].is_none() {
            return Ok(false);
        }
        let decoded = match decode_all(records) {
            Ok(d) => d,
            Err(e) => {
                return Err(e);
            },
        };
        let ghost ds = decoded_view(decoded@);
        let total = count_names(&decoded);
        let known = self.table.len() as u64;
        proof {
            self.table.lemma_wf();
        }
        if total >= NAME_COUNT_CAP - 1 - known {
            return Err(WorldError::TooManyNames);
        }
        let ghost n0 = self.table.names();
        let ghost cache0 = self@.cache;
        proof {
            self.lemma_view();
            assert(n0.subrange(0, n0.len() as int) =~= n0);
            assert(ds.take(0) =~= Seq::<Option<Seq<StorageModel>>>::empty());
        }
        let mut subchunks: Vec<WorldSubchunk> = Vec::new();
        let mut i: usize = 0;
        while i < decoded.len()
            invariant
                self.table.wf(),
                self.cache == old(self).cache,
                ds == decoded_view(decoded@),
                decoded@.len() == NUM_SUBCHUNKS,
                forall|k: int| 0 <= k < decoded@.len() && (#[trigger] decoded@[k]) is Some ==> decoded_wf(decoded@[k].unwrap()@),
                n0 == old(self)@.names,
                n0.no_duplicates(),
                n0.len() + records_names(ds).len() + 1 < u32::MAX,
                i <= NUM_SUBCHUNKS,
                self.table.names() == intern_all(n0, records_names(ds.take(i as int))).0,
                is_prefix(n0, self.table.names()),
                subchunks@.len() == i,
                forall|k: int| 0 <= k < i ==> (#[trigger] subchunks@[k])@ == loaded_subchunk(self.table.names(), ds[k]),
                forall|k: int| 0 <= k < i && (#[trigger] ds[k]) is Some ==> names_cover(self.table.names(), ds[k].unwrap()),
            decreases NUM_SUBCHUNKS - i,
        {
            let ghost names_before = self.table.names();
            assert(ds.take(i + 1).drop_last() =~= ds.take(i as int));
            proof {
                self.table.lemma_wf();
                lemma_intern_all_grows(n0, records_names(ds.take(i as int)));
                lemma_records_names_prefix(ds, i + 1);
            }
            match &decoded[i] {
                Some(sc) => {
                    assert(ds[i as int] == Some(sc@));
                    let converted = convert_subchunk(&mut self.table, sc);
                    proof {
                        self.table.lemma_wf();
                        lemma_intern_all_append(n0, records_names(ds.take(i as int)), storages_names(sc@));
                        lemma_prefix_trans(n0, names_before, self.table.names());
                        lemma_subchunks_stable(names_before, self.table.names(), ds, subchunks@, i as int, decoded@);
                    }
                    subchunks.push(converted);
                },
                None => {
                    assert(ds[i as int] is None);
                    assert(records_names(ds.take(i + 1)) =~= records_names(ds.take(i as int)));
                    subchunks.push(create_air_subchunk());
                },
            }
            i = i + 1;
        }
        assert(ds.take(i as int) =~= ds);
        let chunk = Chunk { subchunks };
        assert(chunk@ =~= loaded_chunk(self.table.names(), ds));
        self.cache.insert(*pos, Some(chunk));
        proof {
            self.table.lemma_wf();
            self.lemma_view();
            lemma_loaded_chunk_wf(self.table.names(), ds, decoded@);
            assert(self@.cache =~= cache0.insert(*pos, Some(loaded_chunk(self.table.names(), ds))));
            assert forall|p: ChunkPos| #[trigger] self@.cache.contains_key(p) && self@.cache[p] is Some implies chunk_wf(
                self@.cache[p].unwrap(),
                self@.names.len(),
            ) by {
                if p != *pos {
                    assert(old(self)@.cache.contains_key(p));
                    lemma_chunk_wf_grow(old(self)@.cache[p].unwrap(), n0.len(), self@.names.len());
                }
            }
        }
        Ok(true)
    }
}

proof fn lemma_subchunks_stable(
    n1: Seq<Seq<char>>,
    n2: Seq<Seq<char>>,
    ds: Seq<Option<Seq<StorageModel>>>,
    done: Seq<WorldSubchunk>,
    i: int,
    decoded: Seq<Option<Subchunk>>,
)
    requires
        is_prefix(n1, n2),
        n2.no_duplicates(),
        0 <= i < ds.len(),
        ds == decoded_view(decoded),
        done.len() == i,
        forall|k: int| 0 <= k < decoded.len() && (#[trigger] decoded[k]) is Some ==> decoded_wf(decoded[k].unwrap()@),
        forall|k: int| 0 <= k < i ==> (#[trigger] done[k])@ == loaded_subchunk(n1, ds[k]),
        forall|k: int| 0 <= k < i && (#[trigger] ds[k]) is Some ==> names_cover(n1, ds[k].unwrap()),
    ensures
        forall|k: int| 0 <= k < i ==> (#[trigger] done[k])@ == loaded_subchunk(n2, ds[k]),
        forall|k: int| 0 <= k < i && (#[trigger] ds[k]) is Some ==> names_cover(n2, ds[k].unwrap()),
{
    assert forall|k: int| 0 <= k < i implies (#[trigger] done[k])@ == loaded_subchunk(n2, ds[k]) && (
    ds[k] is Some ==> names_cover(n2, ds[k].unwrap())) by {
        if ds[k] is Some {
            let ss = ds[k].unwrap();
            assert(decoded[k] is Some);
            assert(decoded_wf(ss));
            assert(names_cover(n1, ss));
            assert forall|j: int| 0 <= j < ss.len() implies translated_layer(n1, #[trigger] ss[j]) == translated_layer(n2, ss[j]) by {
                assert(forall|t: int| 0 <= t < ss[j].palette.len() ==> n1.contains(#[trigger] ss[j].palette[t].0));
                lemma_translated_stable(n1, n2, ss[j]);
            }
            assert forall|a: int, t: int| 0 <= a < ss.len() && 0 <= t < ss[a].palette.len() implies n2.contains(
                #[trigger] ss[a].palette[t].0,
            ) by {
                lemma_contains_prefix(n1, n2, ss[a].palette[t].0);
            }
        }
    }
}

proof fn lemma_loaded_chunk_wf(names: Seq<Seq<char>>, ds: Seq<Option<Seq<StorageModel>>>, decoded: Seq<Option<Subchunk>>)
    requires
        1 <= names.len() < u32::MAX,
        ds.len() == NUM_SUBCHUNKS,
        ds == decoded_view(decoded),
        forall|k: int| 0 <= k < decoded.len() && (#[trigger] decoded[k]) is Some ==> decoded_wf(decoded[k].unwrap()@),
        forall|k: int| 0 <= k < ds.len() && (#[trigger] ds[k]) is Some ==> names_cover(names, ds[k].unwrap()),
    ensures
        chunk_wf(loaded_chunk(names, ds), names.len()),
{
    let c = loaded_chunk(names, ds);
    BlockId::lemma_spec_new(1);
    assert forall|s: int| #![trigger c[s]] 0 <= s < c.len() implies c[s].0.len() == SUBCHUNK_VOLUME && c[s].1.len()
        == SUBCHUNK_VOLUME && (forall|k: int| 0 <= k < SUBCHUNK_VOLUME ==> info_valid(names.len(), #[trigger] c[s].0[k]))
        && (forall|k: int| 0 <= k < SUBCHUNK_VOLUME ==> info_valid(names.len(), #[trigger] c[s].1[k])) by {
        if ds[s] is Some {
            let ss = ds[s].unwrap();
            assert(decoded[s] is Some);
            assert(decoded_wf(ss));
            assert(ss[0].blocks.len() == SUBCHUNK_VOLUME && all_below(ss[0].blocks, ss[0].palette.len()));
            assert(forall|t: int| 0 <= t < ss[0].palette.len() ==> names.contains(#[trigger] ss[0].palette[t].0));
            lemma_translated_valid(names, ss[0]);
            if ss.len() > 1 {
                assert(ss[1].blocks.len() == SUBCHUNK_VOLUME && all_below(ss[1].blocks, ss[1].palette.len()));
                assert(forall|t: int| 0 <= t < ss[1].palette.len() ==> names.contains(#[trigger] ss[1].palette[t].0));
                lemma_translated_valid(names, ss[1]);
            }
        }
    }
}

// ----- saving -----

/// One write that a save asks of the store.
#[derive(Debug, Clone)]
pub enum StoreOp {
    Put { key: Vec<u8>, value: Vec<u8> },
    Delete { key: Vec<u8> },
}

/// The value of a [`StoreOp`].
pub enum OpModel {
    Put(Seq<u8>, Seq<u8>),
    Delete(Seq<u8>),
}

impl View for StoreOp {
    type V = OpModel;

    open spec fn view(&self) -> OpModel {
        match self {
            StoreOp::Put { key, value } => OpModel::Put(key@, value@),
            StoreOp::Delete { key } => OpModel::Delete(key@),
        }
    }
}

/// The distinct cells of a layer in order of first appearance.
pub open spec fn layer_palette(layer: Seq<BlockInfo>) -> Seq<BlockInfo>
    decreases layer.len(),
{
    if layer.len() == 0 {
        Seq::empty()
    } else {
        let p = layer_palette(layer.drop_last());
        if p.contains(layer.last()) {
            p
        } else {
            p.push(layer.last())
        }
    }
}

/// A layer in memory as a stored layer: a fresh palette of its distinct
/// cells, each named through the table.
pub open spec fn raw_layer(names: Seq<Seq<char>>, layer: Seq<BlockInfo>) -> StorageModel {
    let p = layer_palette(layer);
    StorageModel {
        blocks: Seq::new(layer.len(), |i: int| p.index_of(layer[i]) as u16),
        palette: p.map_values(|b: BlockInfo| (names[b.block_id@ - 1], b.block_val)),
    }
}

pub open spec fn raw_subchunk(names: Seq<Seq<char>>, sc: (Seq<BlockInfo>, Seq<BlockInfo>)) -> Seq<StorageModel> {
    seq![raw_layer(names, sc.0), raw_layer(names, sc.1)]
}

/// The 16 writes for the cache entry at `pos`: the subchunk records of a
/// chunk, or the deletion of all 16 records.
pub open spec fn chunk_ops(m: WorldModel, pos: ChunkPos) -> Seq<OpModel> {
    match m.cache[pos] {
        Some(c) => Seq::new(
            NUM_SUBCHUNKS as nat,
            |i: int|
                OpModel::Put(
                    key_bytes(pos.spec_subchunk_pos(i as u8)),
                    subchunk_bytes(raw_subchunk(m.names, c[i])),
                ),
        ),
        None => Seq::new(
            NUM_SUBCHUNKS as nat,
            |i: int| OpModel::Delete(key_bytes(pos.spec_subchunk_pos(i as u8))),
        ),
    }
}

/// The writes of a save that walks the cache in `order`.
pub open spec fn save_ops(m: WorldModel, order: Seq<ChunkPos>) -> Seq<OpModel>
    decreases order.len(),
{
    if order.len() == 0 {
        Seq::empty()
    } else {
        save_ops(m, order.drop_last()) + chunk_ops(m, order.last())
    }
}

proof fn lemma_index_of_unique_info(s: Seq<BlockInfo>, j: int)
    requires
        s.no_duplicates(),
        0 <= j < s.len(),
    ensures
        s.index_of(s[j]) == j,
{
    assert(s.contains(s[j]));
    let k = s.index_of(s[j]);
    assert(s[k] == s[j]);
}

/// The palette of a layer under construction: its cells so far, their
/// palette indices, and no cell twice.
proof fn lemma_palette_step(layer: Seq<BlockInfo>, i: int)
    requires
        0 <= i < layer.len(),
        layer_palette(layer.take(i)).no_duplicates(),
    ensures
        layer_palette(layer.take(i + 1)).no_duplicates(),
        layer_palette(layer.take(i + 1)).contains(layer[i]),
        is_info_prefix(layer_palette(layer.take(i)), layer_palette(layer.take(i + 1))),
{
    let t = layer.take(i + 1);
    assert(t.drop_last() =~= layer.take(i));
    assert(t.last() == layer[i]);
    let p = layer_palette(layer.take(i));
    let q = layer_palette(t);
    assert(q.subrange(0, p.len() as int) =~= p);
    if !p.contains(layer[i]) {
        assert(q[p.len() as int] == layer[i]);
        assert forall|a: int, b: int| 0 <= a < q.len() && 0 <= b < q.len() && a != b implies q[a] != q[b] by {
            if a == p.len() {
                assert(q[b] == p[b]);
            } else if b == p.len() {
                assert(q[a] == p[a]);
            }
        }
    } else {
        let j = p.index_of(layer[i]);
        assert(q[j] == layer[i]);
    }
}

pub open spec fn is_info_prefix(a: Seq<BlockInfo>, b: Seq<BlockInfo>) -> bool {
    a.len() <= b.len() && b.subrange(0, a.len() as int) == a
}

proof fn lemma_info_prefix_index(a: Seq<BlockInfo>, b: Seq<BlockInfo>, x: BlockInfo)
    requires
        is_info_prefix(a, b),
        b.no_duplicates(),
        a.contains(x),
    ensures
        b.contains(x),
        b.index_of(x) == a.index_of(x),
{
    let j = a.index_of(x);
    assert(a[j] == x);
    assert(b[j] == b.subrange(0, a.len() as int)[j]);
    lemma_index_of_unique_info(b, j);
}

proof fn lemma_palette_len(layer: Seq<BlockInfo>)
    ensures
        layer_palette(layer).len() <= layer.len(),
        layer.len() > 0 ==> layer_palette(layer).len() >= 1,
    decreases layer.len(),
{
    if layer.len() > 0 {
        lemma_palette_len(layer.drop_last());
    }
}

/// The cells of a layer as a fresh palette and palette indices.
/// The key under which a cell stands in a [`PaletteIndex`].
pub open spec fn info_key(b: BlockInfo) -> (u32, u16) {
    (b.block_id@ as u32, b.block_val)
}

proof fn lemma_info_key_injective(a: BlockInfo, b: BlockInfo)
    requires
        info_valid(u32::MAX as nat, a),
        info_valid(u32::MAX as nat, b),
        info_key(a) == info_key(b),
    ensures
        a == b,
{
    BlockId::lemma_spec_new_of_view(a.block_id);
    BlockId::lemma_spec_new_of_view(b.block_id);
}

/// Hash map from cells, keyed by id number and value, to palette indices.
#[verifier::external_body]
pub struct PaletteIndex {
    map: fnv::FnvHashMap<(u32, u16), u16>,
}

/// The pairs that a [`PaletteIndex`] holds.
pub uninterp spec fn palette_index_entries(m: PaletteIndex) -> Map<(u32, u16), u16>;

impl PaletteIndex {
    /// Relies on `fnv::FnvHashMap` (std's `HashMap` with the FNV hasher):
    /// `default` makes an empty map.
    #[verifier::external_body]
    fn new() -> (r: PaletteIndex)
        ensures
            palette_index_entries(r) =~= Map::empty(),
    {
        PaletteIndex { map: fnv::FnvHashMap::default() }
    }

    /// Relies on `HashMap::get` on tuple keys, whose `Eq` and `Hash` std
    /// defines from the fields.
    #[verifier::external_body]
    fn get(&self, key: (u32, u16)) -> (r: Option<u16>)
        ensures
            match r {
                Some(i) => palette_index_entries(*self).contains_key(key) && palette_index_entries(*self)[key] == i,
                None => !palette_index_entries(*self).contains_key(key),
            },
    {
        self.map.get(&key).copied()
    }

    /// Relies on `HashMap::insert`: the key now maps to `i`, the others are
    /// unchanged.
    #[verifier::external_body]
    fn insert(&mut self, key: (u32, u16), i: u16)
        ensures
            palette_index_entries(*final(self)) == palette_index_entries(*old(self)).insert(key, i),
    {
        self.map.insert(key, i);
    }
}

pub fn convert_world_layer(table: &BlockTable, layer: &Vec<BlockInfo>) -> (r: BlockStorage)
    requires
        table.wf(),
        layer@.len() == SUBCHUNK_VOLUME,
        forall|k: int| 0 <= k < layer@.len() ==> info_valid(table.names().len(), #[trigger] layer@[k]),
    ensures
        r@ == raw_layer(table.names(), layer@),
        storage_wf(r@),
{
    let ghost l = layer@;
    proof {
        table.lemma_wf();
        assert forall|k: int| 0 <= k < l.len() implies info_valid(u32::MAX as nat, #[trigger] l[k]) by {
            assert(info_valid(table.names().len(), l[k]));
        }
    }
    let mut palette: Vec<BlockInfo> = Vec::new();
    let mut index = PaletteIndex::new();
    let mut blocks: Vec<u16> = Vec::new();
    let mut i: usize = 0;
    assert(l.take(0) =~= Seq::<BlockInfo>::empty());
    while i < layer.len()
        invariant
            l == layer@,
            forall|k: int| 0 <= k < l.len() ==> info_valid(u32::MAX as nat, #[trigger] l[k]),
            forall|t: int| 0 <= t < palette@.len() ==> info_valid(u32::MAX as nat, #[trigger] palette@[t]),
            forall|kk: (u32, u16)| #[trigger] palette_index_entries(index).contains_key(kk) <==> (exists|t: int|
                0 <= t < palette@.len() && info_key(palette@[t]) == kk),
            forall|t: int| 0 <= t < palette@.len() ==> palette_index_entries(index).contains_key(info_key(#[trigger] palette@[t]))
                && palette_index_entries(index)[info_key(palette@[t])] == t,
            l.len() == SUBCHUNK_VOLUME,
            i <= l.len(),
            palette@ == layer_palette(l.take(i as int)),
            palette@.no_duplicates(),
            palette@.len() <= i,
            blocks@.len() == i,
            forall|k: int| 0 <= k < i ==> palette@.contains(#[trigger] l[k]) && blocks@[k] == palette@.index_of(l[k]),
        decreases l.len() - i,
    {
        let b = layer[i];
        let ghost before = palette@;
        proof {
            lemma_palette_step(l, i as int);
            assert(l.take(i + 1).drop_last() =~= l.take(i as int));
        }
        let key = (b.block_id.get(), b.block_val);
        let j: usize = match index.get(key) {
            Some(found) => {
                proof {
                    let t = choose|t: int| 0 <= t < before.len() && info_key(before[t]) == key;
                    lemma_info_key_injective(before[t], b);
                }
                assert(before.contains(b));
                found as usize
            },
            None => {
                assert(!before.contains(b)) by {
                    if before.contains(b) {
                        let t = before.index_of(b);
                        assert(info_key(before[t]) == key);
                    }
                }
                let n = palette.len();
                palette.push(b);
                index.insert(key, n as u16);
                proof {
                    assert forall|kk: (u32, u16)| #[trigger] palette_index_entries(index).contains_key(kk) <==> (exists|t: int|
                        0 <= t < palette@.len() && info_key(palette@[t]) == kk) by {
                        if kk != key && palette_index_entries(index).contains_key(kk) {
                            let t = choose|t: int| 0 <= t < before.len() && info_key(before[t]) == kk;
                            assert(palette@[t] == before[t]);
                        }
                        if kk == key {
                            assert(info_key(palette@[n as int]) == kk);
                        }
                        if exists|t: int| 0 <= t < palette@.len() && info_key(palette@[t]) == kk {
                            let t = choose|t: int| 0 <= t < palette@.len() && info_key(palette@[t]) == kk;
                            if t < n {
                                assert(palette@[t] == before[t]);
                            }
                        }
                    }
                    assert forall|t: int| 0 <= t < palette@.len() implies palette_index_entries(index).contains_key(
                        info_key(#[trigger] palette@[t]),
                    ) && palette_index_entries(index)[info_key(palette@[t])] == t by {
                        if t < n {
                            assert(palette@[t] == before[t]);
                            if info_key(before[t]) == key {
                                lemma_info_key_injective(before[t], b);
                                assert(before.contains(b));
                            }
                        }
                    }
                }
                n
            },
        };
        proof {
            assert(palette@ == layer_palette(l.take(i + 1)));
            lemma_index_of_unique_info(palette@, j as int);
            assert forall|k: int| 0 <= k < i implies palette@.contains(#[trigger] l[k]) && blocks@[k] == palette@.index_of(l[k]) by {
                lemma_info_prefix_index(before, palette@, l[k]);
            }
        }
        blocks.push(j as u16);
        i = i + 1;
    }
    assert(l.take(i as int) =~= l);
    // name each palette cell through the table
    let mut entries: Vec<PaletteEntry> = Vec::new();
    let mut k: usize = 0;
    let ghost names = table.names();
    let ghost p = palette@;
    proof {
        assert forall|t: int| 0 <= t < p.len() implies info_valid(names.len(), #[trigger] p[t]) by {
            assert(p.contains(p[t]));
            lemma_palette_members(l, p[t]);
        }
    }
    while k < palette.len()
        invariant
            table.wf(),
            names == table.names(),
            p == palette@,
            k <= p.len(),
            forall|t: int| 0 <= t < p.len() ==> info_valid(names.len(), #[trigger] p[t]),
            entries@.map_values(|e: PaletteEntry| e@) =~= p.take(k as int).map_values(
                |b: BlockInfo| (names[b.block_id@ - 1], b.block_val),
            ),
        decreases p.len() - k,
    {
        let bi = palette[k];
        assert(info_valid(names.len(), p[k as int]));
        let name = table.get_name(bi.block_id).to_owned();
        let ghost before = entries@;
        let entry = PaletteEntry { name, val: bi.block_val };
        entries.push(entry);
        assert(entries@.map_values(|e: PaletteEntry| e@) =~= before.map_values(|e: PaletteEntry| e@).push(entry@));
        assert(p.take(k + 1) =~= p.take(k as int).push(bi));
        assert(p.take(k + 1).map_values(|b: BlockInfo| (names[b.block_id@ - 1], b.block_val)) =~= p.take(
            k as int,
        ).map_values(|b: BlockInfo| (names[b.block_id@ - 1], b.block_val)).push(entry@));
        k = k + 1;
    }
    assert(p.take(k as int) =~= p);
    let r = BlockStorage { blocks, palette: entries };
    proof {
        lemma_palette_len(l);
        assert(r@.blocks =~= raw_layer(names, l).blocks);
        assert(r@.palette =~= raw_layer(names, l).palette);
        assert forall|t: int| 0 <= t < r@.blocks.len() implies (#[trigger] r@.blocks[t]) < r@.palette.len() by {
            assert(p.contains(l[t]));
            let j = p.index_of(l[t]);
            assert(p[j] == l[t]);
        }
    }
    r
}

proof fn lemma_palette_members(layer: Seq<BlockInfo>, x: BlockInfo)
    requires
        layer_palette(layer).contains(x),
    ensures
        layer.contains(x),
    decreases layer.len(),
{
    if layer.len() > 0 {
        let p = layer_palette(layer.drop_last());
        if p.contains(x) {
            lemma_palette_members(layer.drop_last(), x);
            let j = layer.drop_last().index_of(x);
            assert(layer[j] == x);
        } else {
            assert(x == layer.last());
            assert(layer[layer.len() - 1] == x);
        }
    }
}

pub fn convert_world_subchunk(table: &BlockTable, sc: &WorldSubchunk) -> (r: Subchunk)
    requires
        table.wf(),
        sc@.0.len() == SUBCHUNK_VOLUME,
        sc@.1.len() == SUBCHUNK_VOLUME,
        forall|k: int| 0 <= k < SUBCHUNK_VOLUME ==> info_valid(table.names().len(), #[trigger] sc@.0[k]),
        forall|k: int| 0 <= k < SUBCHUNK_VOLUME ==> info_valid(table.names().len(), #[trigger] sc@.1[k]),
    ensures
        r@ == raw_subchunk(table.names(), sc@),
        subchunk_wf(r@),
{
    let mut layers: Vec<BlockStorage> = Vec::new();
    layers.push(convert_world_layer(table, &sc.data1));
    layers.push(convert_world_layer(table, &sc.data2));
    let r = Subchunk { block_storages: layers };
    assert(r@ =~= raw_subchunk(table.names(), sc@));
    r
}

impl World {
    /// The writes that persist the cache, entry by entry in the cache's own
    /// order: the 16 subchunk records of each chunk in memory, and the
    /// deletion of the 16 records of each chunk marked for deletion. The
    /// cache is left as it is.
    pub fn save(&self) -> (r: Vec<StoreOp>)
        requires
            self.wf(),
        ensures
            exists|order: Seq<ChunkPos>|
                #![trigger save_ops(self@, order)]
                order.no_duplicates() && order.to_set() == self@.cache.dom() && r@.map_values(
                    |o: StoreOp| o@,
                ) == save_ops(self@, order),
    {
        let positions = self.cache.positions();
        let ghost m = self@;
        let ghost order = positions@;
        proof {
            self.lemma_view();
            assert(order.take(0) =~= Seq::<ChunkPos>::empty());
        }
        let mut ops: Vec<StoreOp> = Vec::new();
        let mut idx: usize = 0;
        while idx < positions.len()
            invariant
                self.wf(),
                m == self@,
                order == positions@,
                order.to_set() == cache_entries(self.cache).dom(),
                idx <= order.len(),
                ops@.map_values(|o: StoreOp| o@) =~= save_ops(m, order.take(idx as int)),
            decreases order.len() - idx,
        {
            let pos = positions[idx];
            assert(order.take(idx + 1).drop_last() =~= order.take(idx as int));
            assert(order.to_set().contains(pos));
            proof {
                self.lemma_view();
            }
            let ghost base = ops@.map_values(|o: StoreOp| o@);
            let ghost cops = chunk_ops(m, pos);
            match self.cache.get(&pos) {
                Some(Some(c)) => {
                    assert(m.cache[pos] == Some(c@));
                    assert(chunk_wf(c@, m.names.len()));
                    let mut i: u8 = 0;
                    while i < NUM_SUBCHUNKS
                        invariant
                            self.wf(),
                            m == self@,
                            m.cache[pos] == Some(c@),
                            chunk_wf(c@, m.names.len()),
                            cops == chunk_ops(m, pos),
                            i <= NUM_SUBCHUNKS,
                            ops@.map_values(|o: StoreOp| o@) =~= base + cops.take(i as int),
                        decreases NUM_SUBCHUNKS - i,
                    {
                        let key = pos.subchunk_pos(i).key();
                        assert(c@[i as int] == c.subchunks@[i as int]@);
                        let raw = convert_world_subchunk(&self.table, &c.subchunks[i as usize]);
                        let value = raw.serialize();
                        let op = StoreOp::Put { key, value };
                        let ghost before = ops@;
                        ops.push(op);
                        proof {
                            self.lemma_view();
                            assert(op@ == cops[i as int]);
                            assert(ops@.map_values(|o: StoreOp| o@) =~= before.map_values(|o: StoreOp| o@).push(op@));
                        }
                        assert(cops.take(i + 1) =~= cops.take(i as int).push(cops[i as int]));
                        i = i + 1;
                    }
                    assert(cops.take(16) =~= cops);
                },
                Some(None) => {
                    let mut i: u8 = 0;
                    while i < NUM_SUBCHUNKS
                        invariant
                            m.cache[pos] is None,
                            cops == chunk_ops(m, pos),
                            i <= NUM_SUBCHUNKS,
                            ops@.map_values(|o: StoreOp| o@) =~= base + cops.take(i as int),
                        decreases NUM_SUBCHUNKS - i,
                    {
                        let key = pos.subchunk_pos(i).key();
                        let op = StoreOp::Delete { key };
                        let ghost before = ops@;
                        ops.push(op);
                        proof {
                            assert(op@ == cops[i as int]);
                            assert(ops@.map_values(|o: StoreOp| o@) =~= before.map_values(|o: StoreOp| o@).push(op@));
                        }
                        assert(cops.take(i + 1) =~= cops.take(i as int).push(cops[i as int]));
                        i = i + 1;
                    }
                    assert(cops.take(16) =~= cops);
                },
                None => {
                    assert(false);
                },
            }
            idx = idx + 1;
        }
        assert(order.take(idx as int) =~= order);
        proof {
            self.lemma_view();
            assert(order.to_set() =~= m.cache.dom());
        }
        ops
    }
}

proof fn lemma_save_ops_shape(m: WorldModel, order: Seq<ChunkPos>)
    ensures
        save_ops(m, order).len() == 16 * order.len(),
        forall|t: int|
            0 <= t < order.len() ==> save_ops(m, order).subrange(16 * t, 16 * t + 16) == chunk_ops(
                m,
                #[trigger] order[t],
            ),
    decreases order.len(),
{
    if order.len() > 0 {
        let init = order.drop_last();
        lemma_save_ops_shape(m, init);
        let ops = save_ops(m, order);
        let prev = save_ops(m, init);
        assert forall|t: int| 0 <= t < order.len() implies ops.subrange(16 * t, 16 * t + 16) == chunk_ops(
            m,
            #[trigger] order[t],
        ) by {
            if t < init.len() {
                assert(16 * t + 16 <= prev.len()) by (nonlinear_arith)
                    requires t < init.len(), prev.len() == 16 * init.len();
                assert(ops.subrange(16 * t, 16 * t + 16) =~= prev.subrange(16 * t, 16 * t + 16));
                assert(init[t] == order[t]);
            } else {
                assert(ops.subrange(16 * t, 16 * t + 16) =~= chunk_ops(m, order.last()));
            }
        }
    }
}

/// The 16 deletions of the records of chunk `c`.
pub open spec fn deletes_of(c: ChunkPos) -> Seq<OpModel> {
    Seq::new(NUM_SUBCHUNKS as nat, |i: int| OpModel::Delete(key_bytes(c.spec_subchunk_pos(i as u8))))
}

/// After `delete_chunk(c)`, a save issues the 16 deletions of the records
/// of `c`, for subchunks 0 to 15 in turn, whatever order it walks the
/// cache in.
pub proof fn lemma_save_after_delete(m: WorldModel, c: ChunkPos, order: Seq<ChunkPos>)
    requires
        order.to_set() == m.cache.insert(c, None).dom(),
    ensures
        ({
            let ops = save_ops(WorldModel { names: m.names, cache: m.cache.insert(c, None) }, order);
            exists|j: int| 0 <= j && j + 16 <= ops.len() && #[trigger] ops.subrange(j, j + 16) == deletes_of(c)
        }),
{
    let m2 = WorldModel { names: m.names, cache: m.cache.insert(c, None) };
    let ops = save_ops(m2, order);
    assert(order.to_set().contains(c));
    let t = order.index_of(c);
    assert(order[t] == c);
    lemma_save_ops_shape(m2, order);
    assert(16 * t + 16 <= ops.len()) by (nonlinear_arith)
        requires 0 <= t < order.len(), ops.len() == 16 * order.len();
    assert(chunk_ops(m2, c) =~= deletes_of(c));
    assert(ops.subrange(16 * t, 16 * t + 16) == deletes_of(c));
}

proof fn lemma_palette_contains_all(layer: Seq<BlockInfo>)
    ensures
        forall|i: int| 0 <= i < layer.len() ==> layer_palette(layer).contains(#[trigger] layer[i]),
        layer_palette(layer).no_duplicates(),
    decreases layer.len(),
{
    if layer.len() > 0 {
        let init = layer.drop_last();
        lemma_palette_contains_all(init);
        assert(layer.take(layer.len() - 1) =~= init);
        assert(layer.take(layer.len() as int) =~= layer);
        lemma_palette_step(layer, layer.len() - 1);
        assert forall|i: int| 0 <= i < layer.len() implies layer_palette(layer).contains(#[trigger] layer[i]) by {
            if i < init.len() {
                assert(init[i] == layer[i]);
                assert(layer_palette(init).contains(layer[i]));
                let j = layer_palette(init).index_of(layer[i]);
                assert(layer_palette(layer)[j] == layer[i]);
            }
        }
    }
}

/// Writing a layer with a fresh palette and reading it back through the
/// same table gives the layer back, whatever order the palette has.
pub proof fn lemma_layer_round_trip(names: Seq<Seq<char>>, layer: Seq<BlockInfo>)
    requires
        names.no_duplicates(),
        names.len() < u32::MAX,
        layer.len() == SUBCHUNK_VOLUME,
        forall|k: int| 0 <= k < layer.len() ==> info_valid(names.len(), #[trigger] layer[k]),
    ensures
        translated_layer(names, raw_layer(names, layer)) == layer,
{
    let p = layer_palette(layer);
    let st = raw_layer(names, layer);
    lemma_palette_contains_all(layer);
    lemma_palette_len(layer);
    assert forall|i: int| 0 <= i < layer.len() implies #[trigger] translated_layer(names, st)[i] == layer[i] by {
        let j = p.index_of(layer[i]);
        assert(p.contains(layer[i]));
        assert(0 <= j < p.len() && p[j] == layer[i]);
        assert(st.blocks[i] == j as u16);
        assert(st.blocks[i] as int == j);
        let id = layer[i].block_id;
        assert(info_valid(names.len(), layer[i]));
        lemma_index_of_unique(names, id@ - 1);
        BlockId::lemma_spec_new_of_view(id);
    }
    assert(translated_layer(names, st) =~= layer);
}

/// A subchunk stored with one layer reads with an all-air second layer.
pub proof fn lemma_missing_layer_is_air(names: Seq<Seq<char>>, ss: Seq<StorageModel>)
    requires
        ss.len() == 1,
    ensures
        translated_subchunk(names, ss).1 == air_layer(),
        forall|i: int| 0 <= i < SUBCHUNK_VOLUME ==> #[trigger] translated_subchunk(names, ss).1[i] == air_info(),
{
}

proof fn lemma_same_cell(p: WorldPos, q: WorldPos)
    requires
        p.spec_chunk_pos() == q.spec_chunk_pos(),
        p.spec_subchunk_y() == q.spec_subchunk_y(),
        p.spec_subchunk_offset() == q.spec_subchunk_offset(),
    ensures
        p == q,
{
    let (px, pz, py) = (p.x as int, p.z as int, p.y as int);
    let (qx, qz, qy) = (q.x as int, q.z as int, q.y as int);
    assert(px % 16 == qx % 16 && pz % 16 == qz % 16 && py % 16 == qy % 16) by (nonlinear_arith)
        requires
            256 * (px % 16) + 16 * (pz % 16) + (py % 16) == 256 * (qx % 16) + 16 * (qz % 16) + (qy % 16),
            0 <= px % 16 < 16, 0 <= pz % 16 < 16, 0 <= py % 16 < 16,
            0 <= qx % 16 < 16, 0 <= qz % 16 < 16, 0 <= qy % 16 < 16,
    ;
    assert(px == qx) by (nonlinear_arith)
        requires px / 16 == qx / 16, px % 16 == qx % 16;
    assert(pz == qz) by (nonlinear_arith)
        requires pz / 16 == qz / 16, pz % 16 == qz % 16;
    assert(py == qy) by (nonlinear_arith)
        requires py / 16 == qy / 16, py % 16 == qy % 16;
}

/// `set_block(p, d)` changes the voxel at `p` and no other.
pub proof fn lemma_set_block_keeps_others(m: WorldModel, p: WorldPos, q: WorldPos, d: BlockData)
    requires
        m.wf(),
        m.has_chunk(p.spec_chunk_pos()),
        q != p,
    ensures
        m.with_block(p, d).block_at(q) == m.block_at(q),
{
    let c = p.spec_chunk_pos();
    assert(chunk_wf(m.cache[c].unwrap(), m.names.len()));
    if q.spec_chunk_pos() == c && q.spec_subchunk_y() == p.spec_subchunk_y() && q.spec_subchunk_offset()
        == p.spec_subchunk_offset() {
        lemma_same_cell(p, q);
    }
}

} // verus!
