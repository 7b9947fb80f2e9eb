//! Reading and writing the block records of a bedrock-edition world store:
//! record keys, the bit-packed subchunk payload, a block-name interning
//! table and a write-back chunk cache.
mod bits;
mod error;
mod key;
mod neighbor;
mod palette;
mod pos;
mod subchunk;
mod table;
mod world;

pub use crate::bits::{bits_per_block, lemma_pack_round_trip, lemma_slot_of_pack, pack_word, unpack_word};
pub use crate::error::WorldError;
pub use crate::key::{
    chunk_positions, lemma_iteration_absence, lemma_iteration_presence, lemma_key_round_trip, scan_subchunk_keys, try_decode_pos,
    Encode, SUBCHUNK_KEY_LEN_OTHER, SUBCHUNK_KEY_LEN_OVERWORLD, SUBCHUNK_PREFIX,
};
pub use crate::neighbor::{NeighborIterator, NeighborState};
pub use crate::palette::{name_fits_exec, MAX_NAME_BYTES, MAX_NESTING};
pub use crate::pos::{flooring_divide, ChunkPos, Dimension, SubchunkPos, WorldPos, NUM_SUBCHUNKS, SUBCHUNK_VOLUME};
pub use crate::subchunk::{BlockStorage, Encoder, PaletteEntry, Subchunk, MAX_PALETTE_LEN, SUBCHUNK_VERSION};
pub use crate::table::{lemma_intern_known, lemma_name_table_bijection, BlockId, BlockTable};
pub use crate::world::{
    convert_subchunk, convert_world_layer, convert_world_subchunk, create_air_chunk, create_air_layer,
    create_air_subchunk, translate_block_storage, lemma_cache_coherence, lemma_delete_then_add,
    lemma_layer_round_trip, lemma_missing_layer_is_air, lemma_save_after_delete, lemma_set_block_keeps_others, BlockData, BlockInfo, Chunk, StoreOp, World,
    WorldSubchunk,
};
